//! Calendar dates of search keys.
use vstd::prelude::*;

use crate::ascii;
use crate::ascii::{is_alpha, is_digit};
use crate::encode;
use crate::encode::{EncodeContext, EncodeIntoContext, Token};
use crate::grammar as g;
use crate::grammar::{tag, take_while1, IMAPParseError, IMAPResult, Outcome, Rule};
use crate::number;
use crate::number::parse_digits;
use crate::reading;
use crate::strings;
use crate::strings::Quoted;

verus! {

/// A day of the Gregorian calendar in the years 0 to 9999.
#[derive(Clone, Copy, Debug, PartialEq, Eq, Hash, Structural)]
pub struct Date {
    pub year: u16,
    pub month: u8,
    pub day: u8,
}

impl DeepView for Date {
    type V = Date;

    open spec fn deep_view(&self) -> Date {
        *self
    }
}

#[verifier::allow_in_spec]
pub fn is_leap_year(year: u16) -> bool
    returns
        year % 4 == 0 && (year % 100 != 0 || year % 400 == 0),
{
    year % 4 == 0 && (year % 100 != 0 || year % 400 == 0)
}

#[verifier::allow_in_spec]
pub fn days_in_month(year: u16, month: u8) -> u8
    returns
        (if month == 2 {
            if is_leap_year(year) {
                29u8
            } else {
                28u8
            }
        } else if month == 4 || month == 6 || month == 9 || month == 11 {
            30u8
        } else {
            31u8
        }),
{
    if month == 2 {
        if is_leap_year(year) {
            29
        } else {
            28
        }
    } else if month == 4 || month == 6 || month == 9 || month == 11 {
        30
    } else {
        31
    }
}

pub open spec fn date_wf(d: Date) -> bool {
    d.year <= 9999 && 1 <= d.month <= 12 && 1 <= d.day <= days_in_month(d.year, d.month)
}

pub open spec fn month_text(month: u8) -> Seq<u8> {
    if month == 1 {
        ascii::bytes_of("Jan")
    } else if month == 2 {
        ascii::bytes_of("Feb")
    } else if month == 3 {
        ascii::bytes_of("Mar")
    } else if month == 4 {
        ascii::bytes_of("Apr")
    } else if month == 5 {
        ascii::bytes_of("May")
    } else if month == 6 {
        ascii::bytes_of("Jun")
    } else if month == 7 {
        ascii::bytes_of("Jul")
    } else if month == 8 {
        ascii::bytes_of("Aug")
    } else if month == 9 {
        ascii::bytes_of("Sep")
    } else if month == 10 {
        ascii::bytes_of("Oct")
    } else if month == 11 {
        ascii::bytes_of("Nov")
    } else {
        ascii::bytes_of("Dec")
    }
}

/// The month of this name.
pub open spec fn month_of(w: Seq<u8>) -> Option<u8> {
    if exists|m: u8| 1 <= m <= 12 && ascii::same_word(w, #[trigger] month_text(m)) {
        Some(choose|m: u8| 1 <= m <= 12 && ascii::same_word(w, #[trigger] month_text(m)))
    } else {
        None
    }
}

/// The date of these day, month and year, if there is one.
pub open spec fn date_of(day: Seq<u8>, month: Seq<u8>, year: Seq<u8>) -> Option<Date> {
    match month_of(month) {
        Some(m) if day.len() <= 2 && year.len() == 4 => {
            let d = Date {
                year: number::digits_value(year) as u16,
                month: m,
                day: number::digits_value(day) as u8,
            };
            if date_wf(d) {
                Some(d)
            } else {
                None
            }
        },
        _ => None,
    }
}

pub open spec fn letters_rule() -> Rule<Seq<u8>> {
    g::take_while1_rule(|b: u8| is_alpha(b))
}

/// `date-text = date-day "-" date-month "-" date-year`.
pub open spec fn date_text_rule() -> Rule<Date> {
    g::map_opt(
        g::pair(
            g::terminated(number::digits_rule(), g::text("-")),
            g::pair(g::terminated(letters_rule(), g::text("-")), number::digits_rule()),
        ),
        |p: (Seq<u8>, (Seq<u8>, Seq<u8>))| date_of(p.0, p.1.0, p.1.1),
    )
}

/// `date = DQUOTE date-text DQUOTE / date-text`.
#[verifier::opaque]
pub open spec fn date_rule() -> Rule<Date> {
    g::alt(g::delimited(g::text("\""), date_text_rule(), g::text("\"")), date_text_rule())
}

/// The digit of a number at the given place.
pub open spec fn digit(n: int, place: int) -> u8 {
    ('0' as u8 + (n / place) % 10) as u8
}

pub open spec fn day_text(d: Date) -> Seq<u8> {
    seq![digit(d.day as int, 10), digit(d.day as int, 1)]
}

pub open spec fn year_text(d: Date) -> Seq<u8> {
    let y = d.year as int;
    seq![digit(y, 1000), digit(y, 100), digit(y, 10), digit(y, 1)]
}

/// A date as it is written, in quotes.
pub open spec fn date_text(d: Date) -> Seq<u8> {
    ascii::bytes_of("\"") + day_text(d) + ascii::bytes_of("-") + month_text(d.month)
        + ascii::bytes_of("-") + year_text(d) + ascii::bytes_of("\"")
}

// ---------------------------------------------------------------------- lemmas

pub proof fn lemma_date_lawful()
    ensures
        g::lawful(date_rule()),
{
    broadcast use g::group_lawful;

    reveal(date_rule);
}

proof fn lemma_months()
    ensures
        forall|m: u8| #![trigger month_text(m)]
            month_text(m).len() == 3 && ascii::all_bytes(month_text(m), |b: u8| is_alpha(b)),
        forall|m: u8, n: u8|
            1 <= m <= 12 && 1 <= n <= 12 && #[trigger] ascii::same_word(
                month_text(m),
                month_text(n),
            ) ==> m == n,
{
    broadcast use ascii::lemma_same_word_head;

    reveal_strlit("Jan");
    reveal_strlit("Feb");
    reveal_strlit("Mar");
    reveal_strlit("Apr");
    reveal_strlit("May");
    reveal_strlit("Jun");
    reveal_strlit("Jul");
    reveal_strlit("Aug");
    reveal_strlit("Sep");
    reveal_strlit("Oct");
    reveal_strlit("Nov");
    reveal_strlit("Dec");
    assert forall|m: u8| #![trigger month_text(m)]
        month_text(m).len() == 3 && ascii::all_bytes(month_text(m), |b: u8| is_alpha(b)) by {
        let t = month_text(m);
        assert(is_alpha(t[0]) && is_alpha(t[1]) && is_alpha(t[2]));
    }
}

/// The month with the name that it is written with.
proof fn lemma_month_of(w: Seq<u8>, m: u8)
    requires
        1 <= m <= 12,
        ascii::same_word(w, month_text(m)),
    ensures
        month_of(w) == Some(m),
{
    lemma_months();
    let n = month_of(w)->Some_0;
    assert(ascii::same_word(w, month_text(n)));
    assert(ascii::same_word(month_text(n), month_text(m)));
}

proof fn lemma_day_value(d: Date)
    requires
        date_wf(d),
    ensures
        number::all_digits(day_text(d)),
        number::digits_value(day_text(d)) == d.day,
{
    let t = day_text(d);
    assert(t.drop_last() =~= seq![t[0]]);
    assert(t.drop_last().drop_last() =~= seq![]);
    reveal_with_fuel(number::digits_value, 3);
}

proof fn lemma_push_value(d: Seq<u8>, n: nat, x: nat)
    requires
        number::digits_value(d) == n,
        x < 10,
    ensures
        number::digits_value(d.push(('0' as u8 + x) as u8)) == 10 * n + x,
{
    assert(d.push(('0' as u8 + x) as u8).drop_last() =~= d);
}

proof fn lemma_year_value(d: Date)
    requires
        date_wf(d),
    ensures
        number::all_digits(year_text(d)),
        number::digits_value(year_text(d)) == d.year,
{
    let y = d.year as int;
    let none = Seq::<u8>::empty();
    let a = none.push(digit(y, 1000));
    let b = a.push(digit(y, 100));
    let c = b.push(digit(y, 10));
    assert(number::digits_value(none) == 0);
    lemma_push_value(none, 0, (y / 1000 % 10) as nat);
    lemma_push_value(a, (y / 1000) as nat, (y / 100 % 10) as nat);
    lemma_push_value(b, (y / 100) as nat, (y / 10 % 10) as nat);
    lemma_push_value(c, (y / 10) as nat, (y % 10) as nat);
    assert(year_text(d) =~= c.push(digit(y, 1)));
}

/// A date is read back.
pub proof fn lemma_date_reads(d: Date)
    requires
        date_wf(d),
    ensures
        reading::reads(date_rule(), date_text(d), d),
        date_text(d).len() > 0,
{
    broadcast use reading::group_reading;

    reveal(date_rule);
    reveal_strlit("\"");
    reveal_strlit("-");
    lemma_months();
    lemma_day_value(d);
    lemma_year_value(d);
    lemma_month_of(month_text(d.month), d.month);
    let q = ascii::bytes_of("\"");
    let dash = ascii::bytes_of("-");
    assert forall|t: Seq<u8>| reading::ends(t) implies #[trigger] date_rule()(date_text(d) + t)
        == Outcome::Done(t, d) by {
        let e = q + t;
        let c = dash + (year_text(d) + e);
        let b = dash + (month_text(d.month) + c);
        assert(date_text(d) + t =~= q + (day_text(d) + b));
        assert(b[0] == '-' as u8);
        assert(c[0] == '-' as u8);
        assert(e[0] == '"' as u8);
        reading::lemma_take_while1_reads(|x: u8| is_digit(x), day_text(d), b);
        reading::lemma_take_while1_reads(|x: u8| is_alpha(x), month_text(d.month), c);
        reading::lemma_take_while1_reads(|x: u8| is_digit(x), year_text(d), e);
    }
}

// ------------------------------------------------------------------ executable

/// The name of a month.
fn month_name(month: u8) -> (r: &'static str)
    ensures
        ascii::bytes_of(r) == month_text(month),
{
    if month == 1 {
        "Jan"
    } else if month == 2 {
        "Feb"
    } else if month == 3 {
        "Mar"
    } else if month == 4 {
        "Apr"
    } else if month == 5 {
        "May"
    } else if month == 6 {
        "Jun"
    } else if month == 7 {
        "Jul"
    } else if month == 8 {
        "Aug"
    } else if month == 9 {
        "Sep"
    } else if month == 10 {
        "Oct"
    } else if month == 11 {
        "Nov"
    } else {
        "Dec"
    }
}

fn find_month(w: &[u8]) -> (r: Option<u8>)
    ensures
        r == month_of(w@),
{
    let mut m: u8 = 1;
    while m <= 12
        invariant
            1 <= m <= 13,
            forall|n: u8| 1 <= n < m ==> !ascii::same_word(w@, #[trigger] month_text(n)),
        decreases 13 - m,
    {
        if ascii::is_word(w, month_name(m)) {
            proof {
                lemma_month_of(w@, m);
            }
            return Some(m);
        }
        m = m + 1;
    }
    None
}

fn date_text_parser<'a>(input: &'a [u8]) -> (res: IMAPResult<'a, Date>)
    ensures
        g::agrees(res, date_text_rule()(input@)),
{
    let (rest, day) = number::digits(input)?;
    let (rest, _) = tag(rest, "-")?;
    let (rest, month) = take_while1(rest, is_alpha, Ghost(|b: u8| is_alpha(b)))?;
    let (rest, _) = tag(rest, "-")?;
    let (rest, year) = number::digits(rest)?;
    assert(month.deep_view() =~= month@);
    assert(day.deep_view() =~= day@);
    assert(year.deep_view() =~= year@);
    if day.len() > 2 || year.len() != 4 {
        return Err(IMAPParseError::Error);
    }
    let month: u8 = match find_month(month.as_slice()) {
        Some(m) => m,
        None => return Err(IMAPParseError::Error),
    };
    proof {
        lemma_small_value(day@, 2);
        lemma_small_value(year@, 4);
    }
    let (day, year): (u64, u64) = match (parse_digits(day.as_slice()), parse_digits(year.as_slice())) {
        (Some(d), Some(y)) => (d, y),
        _ => return Err(IMAPParseError::Error),
    };
    let d = Date { year: year as u16, month, day: day as u8 };
    if d.day >= 1 && d.day <= days_in_month(d.year, d.month) {
        Ok((rest, d))
    } else {
        Err(IMAPParseError::Error)
    }
}

/// Few digits make a small number.
proof fn lemma_small_value(d: Seq<u8>, n: nat)
    requires
        d.len() <= n <= 4,
        number::all_digits(d),
    ensures
        d.len() <= 2 ==> number::digits_value(d) <= 99,
        number::digits_value(d) <= 9999,
{
    reveal_with_fuel(number::digits_value, 5);
    let a = d.drop_last();
    let b = a.drop_last();
    let c = b.drop_last();
    if d.len() > 0 {
        assert(is_digit(d.last()));
    }
    if d.len() > 1 {
        assert(a.last() == d[d.len() - 2]);
        assert(is_digit(d[d.len() - 2]));
    }
    if d.len() > 2 {
        assert(b.last() == d[d.len() - 3]);
        assert(is_digit(d[d.len() - 3]));
    }
    if d.len() > 3 {
        assert(c.last() == d[d.len() - 4]);
        assert(is_digit(d[d.len() - 4]));
    }
}

fn quoted_date<'a>(input: &'a [u8]) -> (res: IMAPResult<'a, Date>)
    ensures
        g::agrees(
            res,
            g::delimited(g::text("\""), date_text_rule(), g::text("\""))(input@),
        ),
{
    let (rest, _) = tag(input, "\"")?;
    let (rest, d) = date_text_parser(rest)?;
    let (rest, _) = tag(rest, "\"")?;
    Ok((rest, d))
}

pub fn date<'a>(input: &'a [u8]) -> (res: IMAPResult<'a, Date>)
    ensures
        g::agrees(res, date_rule()(input@)),
{
    proof {
        reveal(date_rule);
    }
    match quoted_date(input) {
        Err(IMAPParseError::Error) => date_text_parser(input),
        res => res,
    }
}

impl EncodeIntoContext for Date {
    open spec fn tokens(v: Date) -> Seq<Token> {
        encode::plain(date_text(v))
    }

    fn encode_ctx(&self, ctx: &mut EncodeContext) {
        broadcast use encode::lemma_plain_add;

        let zero: u8 = '0' as u8;
        let mut day: Vec<u8> = Vec::new();
        day.push(zero + (self.day / 10) % 10);
        day.push(zero + self.day % 10);
        let mut year: Vec<u8> = Vec::new();
        year.push(zero + ((self.year / 1000) % 10) as u8);
        year.push(zero + ((self.year / 100) % 10) as u8);
        year.push(zero + ((self.year / 10) % 10) as u8);
        year.push(zero + (self.year % 10) as u8);
        assert(day@ =~= day_text(*self));
        assert(year@ =~= year_text(*self));
        ctx.write_text("\"");
        ctx.write_bytes(day.as_slice());
        ctx.write_text("-");
        ctx.write_text(month_name(self.month));
        ctx.write_text("-");
        ctx.write_bytes(year.as_slice());
        ctx.write_text("\"");
        assert(ctx@ =~= old(ctx)@ + encode::plain(date_text(*self)));
        assert(ctx@ =~= old(ctx)@ + Self::tokens(self.deep_view()));
    }
}

// ----------------------------------------------------------------- dates with time

/// A point in time as text, such as `17-Jul-1996 02:44:25 -0700`.
#[derive(Debug, PartialEq, Eq, Hash)]
pub struct DateTime {
    pub text: Quoted,
}

impl DeepView for DateTime {
    type V = Seq<u8>;

    open spec fn deep_view(&self) -> Seq<u8> {
        self.text.deep_view()
    }
}

impl Clone for DateTime {
    fn clone(&self) -> (r: Self)
        ensures
            r.deep_view() == self.deep_view(),
    {
        DateTime { text: self.text.clone() }
    }
}

/// `date-day-fixed "-" date-month "-" date-year SP time SP zone`.
pub open spec fn is_date_time(b: Seq<u8>) -> bool {
    &&& b.len() == 26
    &&& b[0] == 0x20 || is_digit(b[0])
    &&& is_digit(b[1])
    &&& b[2] == '-' as u8
    &&& month_of(b.subrange(3, 6)) is Some
    &&& b[6] == '-' as u8
    &&& is_digit(b[7]) && is_digit(b[8]) && is_digit(b[9]) && is_digit(b[10])
    &&& b[11] == 0x20
    &&& is_digit(b[12]) && is_digit(b[13])
    &&& b[14] == ':' as u8
    &&& is_digit(b[15]) && is_digit(b[16])
    &&& b[17] == ':' as u8
    &&& is_digit(b[18]) && is_digit(b[19])
    &&& b[20] == 0x20
    &&& b[21] == '+' as u8 || b[21] == '-' as u8
    &&& is_digit(b[22]) && is_digit(b[23]) && is_digit(b[24]) && is_digit(b[25])
}

/// `date-time`, in quotes.
#[verifier::opaque]
pub open spec fn date_time_rule() -> Rule<Seq<u8>> {
    g::verify(strings::quoted_rule(), |b: Seq<u8>| is_date_time(b))
}

pub open spec fn date_time_wf(b: Seq<u8>) -> bool {
    strings::quoted_wf(b) && is_date_time(b)
}

pub proof fn lemma_date_time_lawful()
    ensures
        g::lawful(date_time_rule()),
{
    broadcast use g::group_lawful;

    reveal(date_time_rule);
    strings::lemma_strings_lawful();
}

/// A point in time is read back, whatever follows it.
pub proof fn lemma_date_time_reads(b: Seq<u8>, t: Seq<u8>)
    requires
        date_time_wf(b),
    ensures
        date_time_rule()(strings::quoted_text(b) + t) == Outcome::Done(t, b),
{
    reveal(date_time_rule);
    strings::lemma_quoted_reads(b, t);
}

fn date_time_shaped(b: &[u8]) -> (r: bool)
    ensures
        r == is_date_time(b@),
{
    if b.len() != 26 {
        return false;
    }
    let month: &[u8] = &b[3..6];
    assert(month@ =~= b@.subrange(3, 6));
    (b[0] == 0x20 || is_digit(b[0])) && is_digit(b[1]) && b[2] == '-' as u8 && find_month(
        month,
    ).is_some() && b[6] == '-' as u8 && is_digit(b[7]) && is_digit(b[8]) && is_digit(b[9])
        && is_digit(b[10]) && b[11] == 0x20 && is_digit(b[12]) && is_digit(b[13]) && b[14]
        == ':' as u8 && is_digit(b[15]) && is_digit(b[16]) && b[17] == ':' as u8 && is_digit(b[18])
        && is_digit(b[19]) && b[20] == 0x20 && (b[21] == '+' as u8 || b[21] == '-' as u8)
        && is_digit(b[22]) && is_digit(b[23]) && is_digit(b[24]) && is_digit(b[25])
}

pub fn date_time<'a>(input: &'a [u8]) -> (res: IMAPResult<'a, DateTime>)
    ensures
        g::agrees(res, date_time_rule()(input@)),
{
    proof {
        reveal(date_time_rule);
    }
    let (rest, text) = strings::quoted(input)?;
    if date_time_shaped(text.bytes.as_slice()) {
        Ok((rest, DateTime { text }))
    } else {
        Err(IMAPParseError::Error)
    }
}

impl EncodeIntoContext for DateTime {
    open spec fn tokens(v: Seq<u8>) -> Seq<Token> {
        encode::plain(strings::quoted_text(v))
    }

    fn encode_ctx(&self, ctx: &mut EncodeContext) {
        strings::write_quoted(ctx, self.text.bytes.as_slice());
        assert(ctx@ =~= old(ctx)@ + Self::tokens(self.deep_view()));
    }
}

} // verus!
