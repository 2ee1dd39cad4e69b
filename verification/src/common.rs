//! Shared building blocks: the error type, timestamps (`Date`), and the
//! verified text utilities (digit parsing, decimal rendering, splitting)
//! that the lexer, the date parser and the renderer are specified with.
use vstd::prelude::*;

verus! {

pub type IPAddress = String;

pub type MACAddress = String;

/// Spec-level mirror of [`ParseError`], with string payloads as `Seq<char>`.
#[verifier::ext_equal]
pub enum ParseErrorView {
    UnrecognizedKeyword(Seq<char>),
    InvalidDateFormat(Seq<char>),
    ExpectedToken(Seq<char>),
    MissingArgument(Seq<char>),
    UnexpectedToken(Seq<char>),
    UnterminatedLease,
}

/// Every failure the lexer, the date reader or the parser can report.
/// The payload is the offending text: the word that is no keyword, the
/// date or time field that does not parse, the expected token, the option
/// whose argument is missing, or the token that may not stand where it does.
#[derive(Debug, Clone)]
pub enum ParseError {
    UnrecognizedKeyword(String),
    InvalidDateFormat(String),
    ExpectedToken(String),
    MissingArgument(String),
    UnexpectedToken(String),
    UnterminatedLease,
}

impl View for ParseError {
    type V = ParseErrorView;

    open spec fn view(&self) -> ParseErrorView {
        match self {
            ParseError::UnrecognizedKeyword(s) => ParseErrorView::UnrecognizedKeyword(s@),
            ParseError::InvalidDateFormat(s) => ParseErrorView::InvalidDateFormat(s@),
            ParseError::ExpectedToken(s) => ParseErrorView::ExpectedToken(s@),
            ParseError::MissingArgument(s) => ParseErrorView::MissingArgument(s@),
            ParseError::UnexpectedToken(s) => ParseErrorView::UnexpectedToken(s@),
            ParseError::UnterminatedLease => ParseErrorView::UnterminatedLease,
        }
    }
}

pub open spec fn is_digit(c: char) -> bool {
    '0' as int <= c as int && c as int <= '9' as int
}

pub open spec fn digit_val(c: char) -> int {
    c as int - '0' as int
}

/// A non-empty run of decimal digits.
pub open spec fn all_digits(s: Seq<char>) -> bool {
    s.len() > 0 && forall|i: int| 0 <= i < s.len() ==> is_digit(#[trigger] s[i])
}

/// The number the digit string denotes, most significant digit first.
pub open spec fn digits_val(s: Seq<char>) -> int
    decreases s.len(),
{
    if s.len() == 0 {
        0
    } else {
        digits_val(s.drop_last()) * 10 + digit_val(s.last())
    }
}

/// The digits of a numeric field: everything after an optional leading
/// sign.
pub open spec fn sign_split(s: Seq<char>) -> Seq<char> {
    if s.len() > 0 && (s[0] == '-' || s[0] == '+') {
        s.drop_first()
    } else {
        s
    }
}

pub open spec fn is_negative_num(s: Seq<char>) -> bool {
    s.len() > 0 && s[0] == '-'
}

/// A numeric field: an optional sign, then digits, with a value that the
/// machine integer can hold.
pub open spec fn valid_int(s: Seq<char>) -> bool {
    all_digits(sign_split(s)) && (if is_negative_num(s) {
        digits_val(sign_split(s)) <= 9223372036854775808
    } else {
        digits_val(sign_split(s)) <= i64::MAX as int
    })
}

/// The value a numeric field denotes.
pub open spec fn int_val(s: Seq<char>) -> int {
    if is_negative_num(s) {
        -digits_val(sign_split(s))
    } else {
        digits_val(sign_split(s))
    }
}

pub proof fn lemma_digits_val_nonneg(s: Seq<char>)
    requires
        forall|i: int| 0 <= i < s.len() ==> is_digit(#[trigger] s[i]),
    ensures
        digits_val(s) >= 0,
    decreases s.len(),
{
    if s.len() > 0 {
        lemma_digits_val_nonneg(s.drop_last());
    }
}

/// A digit string denotes at least what any of its prefixes denotes.
pub proof fn lemma_digits_val_prefix(s: Seq<char>, i: int)
    requires
        0 <= i <= s.len(),
        forall|k: int| 0 <= k < s.len() ==> is_digit(#[trigger] s[k]),
    ensures
        digits_val(s.take(i)) <= digits_val(s),
    decreases s.len() - i,
{
    if i < s.len() {
        lemma_digits_val_prefix(s, i + 1);
        let t = s.take(i + 1);
        assert(t.drop_last() =~= s.take(i));
        lemma_digits_val_nonneg(s.take(i));
        assert(digits_val(s.take(i)) * 10 >= digits_val(s.take(i))) by {
            assert(digits_val(s.take(i)) * 10 == digits_val(s.take(i)) + 9 * digits_val(
                s.take(i),
            ));
        }
    } else {
        assert(s.take(i) =~= s);
    }
}

/// Reads a decimal number with an optional leading sign, exactly as the
/// machine integer type does: `Some` on signed digit strings whose value
/// fits in an `i64`, `None` otherwise.
pub fn parse_i64(s: &str) -> (r: Option<i64>)
    ensures
        r is Some <==> valid_int(s@),
        r matches Some(v) ==> v == int_val(s@),
{
    let n = s.unicode_len();
    if n == 0 {
        return None;
    }
    let c0 = s.get_char(0);
    let neg = c0 == '-';
    let start: usize = if neg || c0 == '+' {
        1
    } else {
        0
    };
    let ghost body = sign_split(s@);
    proof {
        if start == 1 {
            assert(body =~= s@.skip(1));
        } else {
            assert(body =~= s@.skip(0));
        }
    }
    if n == start {
        return None;
    }
    let bound: u64 = if neg {
        9223372036854775808
    } else {
        9223372036854775807
    };
    let mut i: usize = start;
    let mut acc: u64 = 0;
    proof {
        assert(body.take(0) =~= Seq::<char>::empty());
    }
    while i < n
        invariant
            n == s@.len(),
            start <= i <= n,
            start <= 1,
            start < n,
            body == sign_split(s@),
            body =~= s@.skip(start as int),
            neg == is_negative_num(s@),
            bound == (if neg {
                9223372036854775808u64
            } else {
                9223372036854775807u64
            }),
            forall|k: int| start <= k < i ==> is_digit(#[trigger] s@[k]),
            acc == digits_val(body.take(i - start)),
            acc <= bound,
        decreases n - i,
    {
        let c = s.get_char(i);
        let cu = c as u32;
        if cu < 48 || cu > 57 {
            assert(!is_digit(body[i - start]));
            return None;
        }
        let d = (cu - 48) as u64;
        assert(is_digit(s@[i as int]) && d == digit_val(s@[i as int]));
        if acc > (bound - d) / 10 {
            proof {
                let t = body.take(i - start + 1);
                assert(t.drop_last() =~= body.take(i - start));
                assert(t.last() == body[i - start]);
                assert(acc * 10 + d > bound) by (nonlinear_arith)
                    requires
                        acc > (bound - d) / 10,
                        0 <= d <= 9,
                        d <= bound,
                        acc >= 0,
                ;
                if all_digits(body) {
                    lemma_digits_val_prefix(body, i - start + 1);
                }
            }
            return None;
        }
        proof {
            let t = body.take(i - start + 1);
            assert(t.drop_last() =~= body.take(i - start));
            assert(t.last() == body[i - start]);
            assert(acc <= (bound - d) / 10 ==> acc * 10 + d <= bound) by (nonlinear_arith)
                requires
                    0 <= d <= 9,
                    d <= bound,
                    acc >= 0,
            ;
        }
        acc = acc * 10 + d;
        i += 1;
    }
    proof {
        assert(body.take(n - start) =~= body);
    }
    if neg {
        if acc == 9223372036854775808 {
            Some(i64::MIN)
        } else {
            Some(-(acc as i64))
        }
    } else {
        Some(acc as i64)
    }
}

/// Splitting a string at every occurrence of `sep`. Splitting the empty
/// string yields one empty field, matching how the date and time strings
/// are counted: `"a/b/c"` has three fields, `"a//"` has three as well.
pub open spec fn split_on(s: Seq<char>, sep: char) -> Seq<Seq<char>>
    decreases s.len(),
{
    if s.len() == 0 {
        seq![Seq::<char>::empty()]
    } else if s[0] == sep {
        seq![Seq::<char>::empty()] + split_on(s.drop_first(), sep)
    } else {
        let r = split_on(s.drop_first(), sep);
        seq![seq![s[0]] + r[0]] + r.drop_first()
    }
}

pub proof fn lemma_split_on_len(s: Seq<char>, sep: char)
    ensures
        split_on(s, sep).len() >= 1,
    decreases s.len(),
{
    if s.len() > 0 {
        lemma_split_on_len(s.drop_first(), sep);
    }
}

/// Unrolls `split_on` by a whole first field: if no separator stands before
/// index `i`, the first field runs to `i`.
pub proof fn lemma_split_on_first(s: Seq<char>, sep: char, i: int)
    requires
        0 <= i <= s.len(),
        forall|k: int| 0 <= k < i ==> s[k] != sep,
        i == s.len() || s[i] == sep,
    ensures
        i < s.len() ==> split_on(s, sep) =~= seq![s.take(i)] + split_on(s.skip(i + 1), sep),
        i == s.len() ==> split_on(s, sep) =~= seq![s],
    decreases i,
{
    lemma_split_on_len(s, sep);
    if i == 0 {
        if 0 < s.len() {
            assert(s.skip(1) =~= s.drop_first());
            assert(s.take(0) =~= Seq::<char>::empty());
        } else {
            assert(s =~= Seq::<char>::empty());
        }
    } else {
        let t = s.drop_first();
        lemma_split_on_first(t, sep, i - 1);
        lemma_split_on_len(t, sep);
        if i < s.len() {
            assert(t.skip(i) =~= s.skip(i + 1));
            assert(split_on(t, sep) =~= seq![t.take(i - 1)] + split_on(t.skip(i), sep));
            assert(seq![s[0]] + t.take(i - 1) =~= s.take(i));
        } else {
            assert(t.take(i - 1) =~= t);
            assert(seq![s[0]] + t =~= s);
        }
    }
}

/// Cuts `s` at every `sep`, returning the fields in order.
pub fn split_fields(s: &str, sep: char) -> (r: Vec<String>)
    ensures
        r.deep_view() == split_on(s@, sep),
{
    let n = s.unicode_len();
    let mut fields: Vec<String> = Vec::new();
    let mut start: usize = 0;
    let mut i: usize = 0;
    proof {
        assert(s@.skip(0) =~= s@);
        assert(fields.deep_view() =~= Seq::<Seq<char>>::empty());
    }
    while i < n
        invariant
            n == s@.len(),
            0 <= start <= i <= n,
            forall|k: int| start <= k < i ==> s@[k] != sep,
            split_on(s@, sep) =~= fields.deep_view() + split_on(s@.skip(start as int), sep),
        decreases n - i,
    {
        if s.get_char(i) == sep {
            let f = s.substring_char(start, i).to_owned();
            proof {
                let rest = s@.skip(start as int);
                lemma_split_on_first(rest, sep, i - start);
                assert(rest.take(i - start) =~= s@.subrange(start as int, i as int));
                assert(rest.skip(i - start + 1) =~= s@.skip(i + 1));
                assert(fields.deep_view().push(f@) =~= fields.deep_view() + seq![f@]);
            }
            fields.push(f);
            start = i + 1;
        }
        i += 1;
    }
    let f = s.substring_char(start, n).to_owned();
    proof {
        let rest = s@.skip(start as int);
        lemma_split_on_first(rest, sep, n - start);
        assert(rest =~= s@.subrange(start as int, n as int));
        assert(fields.deep_view().push(f@) =~= fields.deep_view() + seq![f@]);
    }
    fields.push(f);
    fields
}

/// Character-by-character string equality, proved to decide view equality.
pub fn str_eq(a: &str, b: &str) -> (r: bool)
    ensures
        r == (a@ == b@),
{
    let la = a.unicode_len();
    let lb = b.unicode_len();
    if la != lb {
        return false;
    }
    let mut i: usize = 0;
    while i < la
        invariant
            la == a@.len(),
            la == b@.len(),
            0 <= i <= la,
            forall|k: int| 0 <= k < i ==> a@[k] == b@[k],
        decreases la - i,
    {
        if a.get_char(i) != b.get_char(i) {
            return false;
        }
        i += 1;
    }
    proof {
        assert(a@ =~= b@);
    }
    true
}

pub open spec fn dec_digit_char(d: int) -> char {
    if d == 0 {
        '0'
    } else if d == 1 {
        '1'
    } else if d == 2 {
        '2'
    } else if d == 3 {
        '3'
    } else if d == 4 {
        '4'
    } else if d == 5 {
        '5'
    } else if d == 6 {
        '6'
    } else if d == 7 {
        '7'
    } else if d == 8 {
        '8'
    } else {
        '9'
    }
}

/// The decimal rendering of a non-negative number, no leading zeros.
pub open spec fn dec_rep(n: int) -> Seq<char>
    decreases n,
{
    if n < 10 {
        seq![dec_digit_char(n)]
    } else {
        dec_rep(n / 10) + seq![dec_digit_char(n % 10)]
    }
}

/// The decimal rendering of any number, `-` before the digits if negative.
pub open spec fn int_rep(n: int) -> Seq<char> {
    if n < 0 {
        seq!['-'] + dec_rep(-n)
    } else {
        dec_rep(n)
    }
}

/// `int_rep`, left-filled with `0` to at least two characters.
pub open spec fn pad2_rep(n: int) -> Seq<char> {
    if int_rep(n).len() < 2 {
        seq!['0'] + int_rep(n)
    } else {
        int_rep(n)
    }
}

/// The weekday-name table, `Sunday` through `Saturday`; anything outside
/// 0..=6 renders as an explicit marker instead of failing.
pub open spec fn weekday_name(w: int) -> Seq<char> {
    if w == 0 {
        "Sunday"@
    } else if w == 1 {
        "Monday"@
    } else if w == 2 {
        "Tuesday"@
    } else if w == 3 {
        "Wednesday"@
    } else if w == 4 {
        "Thursday"@
    } else if w == 5 {
        "Friday"@
    } else if w == 6 {
        "Saturday"@
    } else {
        "Not a valid weekday"@
    }
}

/// `"<WeekdayName> <year>/<month:02>/<day:02> <hour:02>:<minute:02>:<second:02>"`.
pub open spec fn date_display(d: Date) -> Seq<char> {
    weekday_name(d.weekday as int) + " "@ + int_rep(d.year as int) + "/"@ + pad2_rep(
        d.month as int,
    ) + "/"@ + pad2_rep(d.day as int) + " "@ + pad2_rep(d.hour as int) + ":"@ + pad2_rep(
        d.minute as int,
    ) + ":"@ + pad2_rep(d.second as int)
}

fn digit_str(d: u64) -> (r: &'static str)
    requires
        0 <= d <= 9,
    ensures
        r@ == seq![dec_digit_char(d as int)],
{
    let r: &'static str = if d == 0 {
        "0"
    } else if d == 1 {
        "1"
    } else if d == 2 {
        "2"
    } else if d == 3 {
        "3"
    } else if d == 4 {
        "4"
    } else if d == 5 {
        "5"
    } else if d == 6 {
        "6"
    } else if d == 7 {
        "7"
    } else if d == 8 {
        "8"
    } else {
        "9"
    };
    proof {
        reveal_strlit("0");
        reveal_strlit("1");
        reveal_strlit("2");
        reveal_strlit("3");
        reveal_strlit("4");
        reveal_strlit("5");
        reveal_strlit("6");
        reveal_strlit("7");
        reveal_strlit("8");
        reveal_strlit("9");
        assert(r@ =~= seq![dec_digit_char(d as int)]);
    }
    r
}

fn u64_to_string(n: u64) -> (s: String)
    ensures
        s@ == dec_rep(n as int),
    decreases n,
{
    if n < 10 {
        digit_str(n).to_owned()
    } else {
        let mut s = u64_to_string(n / 10);
        s.append(digit_str(n % 10));
        proof {
            assert(s@ =~= dec_rep(n as int));
        }
        s
    }
}

/// Renders any machine integer in decimal.
pub fn i64_to_string(n: i64) -> (s: String)
    ensures
        s@ == int_rep(n as int),
{
    if n >= 0 {
        u64_to_string(n as u64)
    } else {
        let mag: u64 = ((-(n + 1)) as u64) + 1;
        let mut s = String::from_str("-");
        s.append(u64_to_string(mag).as_str());
        proof {
            reveal_strlit("-");
            assert(s@ =~= int_rep(n as int));
        }
        s
    }
}

fn pad2_string(n: i64) -> (s: String)
    ensures
        s@ == pad2_rep(n as int),
{
    let r = i64_to_string(n);
    if r.as_str().unicode_len() < 2 {
        let mut s = String::from_str("0");
        s.append(r.as_str());
        proof {
            reveal_strlit("0");
            assert(s@ =~= pad2_rep(n as int));
        }
        s
    } else {
        r
    }
}

/// A lease timestamp: `weekday year/month/day hour:minute:second`.
/// Month and day have no upper bound by design; the weekday takes no part
/// in the ordering but does in equality.
#[derive(Clone, Copy, Debug, PartialEq, Eq, Structural)]
pub struct Date {
    pub weekday: i64,
    pub year: i64,
    pub month: i64,
    pub day: i64,
    pub hour: i64,
    pub minute: i64,
    pub second: i64,
}

/// What `Date::from` returns: the weekday string must denote 0..=6; the
/// date string must split on `/` into three numeric fields with month and
/// day at least 1 (the year may be any integer, negative included); the
/// time string must split on `:` into three numeric fields with hour
/// 0..=23, minute and second 0..=59. The `Err` payload is the offending
/// argument, whole.
pub open spec fn spec_date_from(w: Seq<char>, d: Seq<char>, t: Seq<char>) -> Result<
    Date,
    Seq<char>,
> {
    if !(valid_int(w) && 0 <= int_val(w) <= 6) {
        Err(w)
    } else {
        let dp = split_on(d, '/');
        if !(dp.len() == 3 && valid_int(dp[0]) && valid_int(dp[1]) && valid_int(dp[2]) && int_val(
            dp[1],
        ) >= 1 && int_val(dp[2]) >= 1) {
            Err(d)
        } else {
            let tp = split_on(t, ':');
            if !(tp.len() == 3 && valid_int(tp[0]) && valid_int(tp[1]) && valid_int(tp[2]) && 0
                <= int_val(tp[0]) <= 23 && 0 <= int_val(tp[1]) <= 59 && 0 <= int_val(tp[2])
                <= 59) {
                Err(t)
            } else {
                Ok(
                    Date {
                        weekday: int_val(w) as i64,
                        year: int_val(dp[0]) as i64,
                        month: int_val(dp[1]) as i64,
                        day: int_val(dp[2]) as i64,
                        hour: int_val(tp[0]) as i64,
                        minute: int_val(tp[1]) as i64,
                        second: int_val(tp[2]) as i64,
                    },
                )
            }
        }
    }
}

impl PartialOrd for Date {
    fn partial_cmp(&self, other: &Date) -> (r: Option<core::cmp::Ordering>) {
        if self.year != other.year {
            if self.year < other.year {
                Some(core::cmp::Ordering::Less)
            } else {
                Some(core::cmp::Ordering::Greater)
            }
        } else if self.month != other.month {
            if self.month < other.month {
                Some(core::cmp::Ordering::Less)
            } else {
                Some(core::cmp::Ordering::Greater)
            }
        } else if self.day != other.day {
            if self.day < other.day {
                Some(core::cmp::Ordering::Less)
            } else {
                Some(core::cmp::Ordering::Greater)
            }
        } else if self.hour != other.hour {
            if self.hour < other.hour {
                Some(core::cmp::Ordering::Less)
            } else {
                Some(core::cmp::Ordering::Greater)
            }
        } else if self.minute != other.minute {
            if self.minute < other.minute {
                Some(core::cmp::Ordering::Less)
            } else {
                Some(core::cmp::Ordering::Greater)
            }
        } else if self.second != other.second {
            if self.second < other.second {
                Some(core::cmp::Ordering::Less)
            } else {
                Some(core::cmp::Ordering::Greater)
            }
        } else {
            Some(core::cmp::Ordering::Equal)
        }
    }
}

impl vstd::std_specs::cmp::PartialOrdSpecImpl for Date {
    open spec fn obeys_partial_cmp_spec() -> bool {
        true
    }

    open spec fn partial_cmp_spec(&self, other: &Date) -> Option<core::cmp::Ordering> {
        Some(spec_date_cmp(*self, *other))
    }
}

/// Whenever the weekday text denotes a number in 0..=6, the date text has
/// exactly three numeric fields with month and day at least 1 (the year
/// unconstrained), and the time text has exactly three numeric fields with
/// hour 0..=23 and minute and second 0..=59, `Date::from` succeeds — and
/// returns exactly the `Date` those numbers spell, so two parses of the
/// same text agree.
pub proof fn lemma_date_from_succeeds(w: Seq<char>, d: Seq<char>, t: Seq<char>)
    requires
        valid_int(w),
        0 <= int_val(w) <= 6,
        split_on(d, '/').len() == 3,
        valid_int(split_on(d, '/')[0]),
        valid_int(split_on(d, '/')[1]),
        valid_int(split_on(d, '/')[2]),
        int_val(split_on(d, '/')[1]) >= 1,
        int_val(split_on(d, '/')[2]) >= 1,
        split_on(t, ':').len() == 3,
        valid_int(split_on(t, ':')[0]),
        valid_int(split_on(t, ':')[1]),
        valid_int(split_on(t, ':')[2]),
        0 <= int_val(split_on(t, ':')[0]) <= 23,
        0 <= int_val(split_on(t, ':')[1]) <= 59,
        0 <= int_val(split_on(t, ':')[2]) <= 59,
    ensures
        spec_date_from(w, d, t) == Ok::<Date, Seq<char>>(
            Date {
                weekday: int_val(w) as i64,
                year: int_val(split_on(d, '/')[0]) as i64,
                month: int_val(split_on(d, '/')[1]) as i64,
                day: int_val(split_on(d, '/')[2]) as i64,
                hour: int_val(split_on(t, ':')[0]) as i64,
                minute: int_val(split_on(t, ':')[1]) as i64,
                second: int_val(split_on(t, ':')[2]) as i64,
            },
        ),
{
}

/// `Date::from` rejects a weekday outside 0..=6, a date or time text with
/// the wrong field count, and an hour, minute or second out of range — and
/// names the offending argument in the error.
pub proof fn lemma_date_from_rejects(w: Seq<char>, d: Seq<char>, t: Seq<char>)
    ensures
        !(valid_int(w) && 0 <= int_val(w) <= 6) ==> spec_date_from(w, d, t) == Err::<
            Date,
            Seq<char>,
        >(w),
        valid_int(w) && 0 <= int_val(w) <= 6 && split_on(d, '/').len() != 3 ==> spec_date_from(
            w,
            d,
            t,
        ) == Err::<Date, Seq<char>>(d),
        spec_date_from(w, d, t) is Ok ==> split_on(t, ':').len() == 3 && 0 <= int_val(
            split_on(t, ':')[0],
        ) <= 23 && 0 <= int_val(split_on(t, ':')[1]) <= 59 && 0 <= int_val(split_on(t, ':')[2])
            <= 59,
{
}

/// The comparison over `(year, month, day, hour, minute, second)`; the
/// weekday is deliberately left out, so two dates equal on the six fields
/// compare equal whatever their weekdays.
pub open spec fn spec_date_cmp(a: Date, b: Date) -> core::cmp::Ordering {
    if a.year != b.year {
        if a.year < b.year {
            core::cmp::Ordering::Less
        } else {
            core::cmp::Ordering::Greater
        }
    } else if a.month != b.month {
        if a.month < b.month {
            core::cmp::Ordering::Less
        } else {
            core::cmp::Ordering::Greater
        }
    } else if a.day != b.day {
        if a.day < b.day {
            core::cmp::Ordering::Less
        } else {
            core::cmp::Ordering::Greater
        }
    } else if a.hour != b.hour {
        if a.hour < b.hour {
            core::cmp::Ordering::Less
        } else {
            core::cmp::Ordering::Greater
        }
    } else if a.minute != b.minute {
        if a.minute < b.minute {
            core::cmp::Ordering::Less
        } else {
            core::cmp::Ordering::Greater
        }
    } else if a.second != b.second {
        if a.second < b.second {
            core::cmp::Ordering::Less
        } else {
            core::cmp::Ordering::Greater
        }
    } else {
        core::cmp::Ordering::Equal
    }
}

/// The ordering over `(year, month, day, hour, minute, second)`; the
/// weekday is deliberately left out.
pub open spec fn spec_date_le(a: Date, b: Date) -> bool {
    if a.year != b.year {
        a.year < b.year
    } else if a.month != b.month {
        a.month < b.month
    } else if a.day != b.day {
        a.day < b.day
    } else if a.hour != b.hour {
        a.hour < b.hour
    } else if a.minute != b.minute {
        a.minute < b.minute
    } else {
        a.second <= b.second
    }
}

impl Date {
    /// Reads a timestamp from its three textual parts, exactly as
    /// [`spec_date_from`] describes; a failure reports the offending part.
    pub fn from(weekday: String, date: String, time: String) -> (r: Result<Date, ParseError>)
        ensures
            match spec_date_from(weekday@, date@, time@) {
                Ok(d) => r matches Ok(got) && got == d,
                Err(p) => r matches Err(ParseError::InvalidDateFormat(s)) && s@ == p,
            },
    {
        let w = match parse_i64(weekday.as_str()) {
            Some(v) => v,
            None => {
                return Err(ParseError::InvalidDateFormat(weekday));
            },
        };
        if w < 0 || w > 6 {
            return Err(ParseError::InvalidDateFormat(weekday));
        }
        let dp = split_fields(date.as_str(), '/');
        if dp.len() != 3 {
            return Err(ParseError::InvalidDateFormat(date));
        }
        proof {
            assert(dp.deep_view()[0] == dp@[0]@);
            assert(dp.deep_view()[1] == dp@[1]@);
            assert(dp.deep_view()[2] == dp@[2]@);
        }
        let year = match parse_i64(dp[0].as_str()) {
            Some(v) => v,
            None => {
                return Err(ParseError::InvalidDateFormat(date));
            },
        };
        let month = match parse_i64(dp[1].as_str()) {
            Some(v) => v,
            None => {
                return Err(ParseError::InvalidDateFormat(date));
            },
        };
        let day = match parse_i64(dp[2].as_str()) {
            Some(v) => v,
            None => {
                return Err(ParseError::InvalidDateFormat(date));
            },
        };
        if month < 1 || day < 1 {
            return Err(ParseError::InvalidDateFormat(date));
        }
        let tp = split_fields(time.as_str(), ':');
        if tp.len() != 3 {
            return Err(ParseError::InvalidDateFormat(time));
        }
        proof {
            assert(tp.deep_view()[0] == tp@[0]@);
            assert(tp.deep_view()[1] == tp@[1]@);
            assert(tp.deep_view()[2] == tp@[2]@);
        }
        let hour = match parse_i64(tp[0].as_str()) {
            Some(v) => v,
            None => {
                return Err(ParseError::InvalidDateFormat(time));
            },
        };
        let minute = match parse_i64(tp[1].as_str()) {
            Some(v) => v,
            None => {
                return Err(ParseError::InvalidDateFormat(time));
            },
        };
        let second = match parse_i64(tp[2].as_str()) {
            Some(v) => v,
            None => {
                return Err(ParseError::InvalidDateFormat(time));
            },
        };
        if hour < 0 || hour > 23 || minute < 0 || minute > 59 || second < 0 || second > 59 {
            return Err(ParseError::InvalidDateFormat(time));
        }
        Ok(Date { weekday: w, year, month, day, hour, minute, second })
    }

    /// The epoch instant, `Sunday 1970/01/01 00:00:00`.
    pub fn new() -> (r: Date)
        ensures
            r == (Date { weekday: 0, year: 1970, month: 1, day: 1, hour: 0, minute: 0, second: 0 }),
    {
        Date { weekday: 0, year: 1970, month: 1, day: 1, hour: 0, minute: 0, second: 0 }
    }

    /// The weekday's name, or the out-of-range marker.
    pub fn weekday_to_string(&self) -> (r: String)
        ensures
            r@ == weekday_name(self.weekday as int),
    {
        if self.weekday == 0 {
            String::from_str("Sunday")
        } else if self.weekday == 1 {
            String::from_str("Monday")
        } else if self.weekday == 2 {
            String::from_str("Tuesday")
        } else if self.weekday == 3 {
            String::from_str("Wednesday")
        } else if self.weekday == 4 {
            String::from_str("Thursday")
        } else if self.weekday == 5 {
            String::from_str("Friday")
        } else if self.weekday == 6 {
            String::from_str("Saturday")
        } else {
            String::from_str("Not a valid weekday")
        }
    }

    /// Renders the timestamp exactly as [`date_display`] states.
    pub fn to_string(&self) -> (s: String)
        ensures
            s@ == date_display(*self),
    {
        let mut s = self.weekday_to_string();
        s.append(" ");
        s.append(i64_to_string(self.year).as_str());
        s.append("/");
        s.append(pad2_string(self.month).as_str());
        s.append("/");
        s.append(pad2_string(self.day).as_str());
        s.append(" ");
        s.append(pad2_string(self.hour).as_str());
        s.append(":");
        s.append(pad2_string(self.minute).as_str());
        s.append(":");
        s.append(pad2_string(self.second).as_str());
        proof {
            assert(s@ =~= date_display(*self));
        }
        s
    }

    /// Whether `self` is at or before `other`: exactly when the six-field
    /// comparison does not say `Greater`.
    pub fn le(&self, other: &Date) -> (r: bool)
        ensures
            r == spec_date_le(*self, *other),
            r == (spec_date_cmp(*self, *other) != core::cmp::Ordering::Greater),
    {
        if self.year != other.year {
            self.year < other.year
        } else if self.month != other.month {
            self.month < other.month
        } else if self.day != other.day {
            self.day < other.day
        } else if self.hour != other.hour {
            self.hour < other.hour
        } else if self.minute != other.minute {
            self.minute < other.minute
        } else {
            self.second <= other.second
        }
    }
}

} // verus!
