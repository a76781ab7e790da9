use vstd::prelude::*;

verus! {

/// An instant in UTC at second precision, as calendar fields.
#[derive(Clone, Copy, Debug, PartialEq, Eq, Structural)]
pub struct Timestamp {
    year: u16,
    month: u8,
    day: u8,
    hour: u8,
    minute: u8,
    second: u8,
}

pub open spec fn is_leap_year(y: int) -> bool {
    y % 4 == 0 && (y % 100 != 0 || y % 400 == 0)
}

pub open spec fn days_in_month(y: int, m: int) -> int {
    if m == 2 {
        if is_leap_year(y) { 29 } else { 28 }
    } else if m == 4 || m == 6 || m == 9 || m == 11 {
        30
    } else {
        31
    }
}

/// The fields name a real date of years 0 to 9999 and a time of day.
pub open spec fn valid_fields(y: int, mo: int, d: int, h: int, mi: int, s: int) -> bool {
    0 <= y <= 9999 && 1 <= mo <= 12 && 1 <= d <= days_in_month(y, mo) && 0 <= h <= 23 && 0
        <= mi <= 59 && 0 <= s <= 59
}

/// The decimal digit character of a value below ten.
pub open spec fn digit(v: int) -> char {
    ((v + 48) as u8) as char
}

pub open spec fn two_digits(v: int) -> Seq<char> {
    seq![digit(v / 10), digit(v % 10)]
}

pub open spec fn four_digits(v: int) -> Seq<char> {
    two_digits(v / 100) + two_digits(v % 100)
}

impl Timestamp {
    #[verifier::type_invariant]
    pub open spec fn inv(self) -> bool {
        self.wf()
    }

    pub open spec fn wf(self) -> bool {
        let f = self.spec_fields();
        valid_fields(f.0 as int, f.1 as int, f.2 as int, f.3 as int, f.4 as int, f.5 as int)
    }

    /// `YYYY-MM-DDTHH:MM:SSZ`
    pub open spec fn iso_text(self) -> Seq<char> {
        let f = self.spec_fields();
        four_digits(f.0 as int) + seq!['-'] + two_digits(f.1 as int) + seq!['-'] + two_digits(
            f.2 as int,
        ) + seq!['T'] + two_digits(f.3 as int) + seq![':'] + two_digits(f.4 as int) + seq![':']
            + two_digits(f.5 as int) + seq!['Z']
    }

    /// Year, month, day, hour, minute and second.
    pub closed spec fn spec_fields(self) -> (u16, u8, u8, u8, u8, u8) {
        (self.year, self.month, self.day, self.hour, self.minute, self.second)
    }

    /// A timestamp from its calendar fields; `None` where they name no instant.
    pub fn new(year: u16, month: u8, day: u8, hour: u8, minute: u8, second: u8) -> (r: Option<
        Timestamp,
    >)
        ensures
            r is Some <==> valid_fields(
                year as int,
                month as int,
                day as int,
                hour as int,
                minute as int,
                second as int,
            ),
            r matches Some(t) ==> t.wf() && t.spec_fields() == (
                year,
                month,
                day,
                hour,
                minute,
                second,
            ),
    {
        let leap = year % 4 == 0 && (year % 100 != 0 || year % 400 == 0);
        let days: u8 = if month == 2 {
            if leap {
                29
            } else {
                28
            }
        } else if month == 4 || month == 6 || month == 9 || month == 11 {
            30
        } else {
            31
        };
        if year <= 9999 && 1 <= month && month <= 12 && 1 <= day && day <= days && hour <= 23
            && minute <= 59 && second <= 59 {
            Some(Timestamp { year, month, day, hour, minute, second })
        } else {
            None
        }
    }

    /// The ISO-8601 text of the instant, with a trailing `Z`.
    pub fn to_iso_string(&self) -> (r: String)
        ensures
            r@ == self.iso_text(),
    {
        proof {
            use_type_invariant(self);
        }
        format_iso(self)
    }
}

/// Relies on chrono's `NaiveDate::from_ymd_opt` and `and_hms_opt`, which give
/// `Some` on a valid date and time of day, and on `format("%FT%TZ")`, which
/// writes the year zero-padded to four digits (years 0 to 9999) and the other
/// fields zero-padded to two.
#[verifier::external_body]
fn format_iso(t: &Timestamp) -> (r: String)
    requires
        t.wf(),
    ensures
        r@ == t.iso_text(),
{
    let date = chrono::NaiveDate::from_ymd_opt(t.year as i32, t.month as u32, t.day as u32);
    let time = date.unwrap().and_hms_opt(t.hour as u32, t.minute as u32, t.second as u32);
    time.unwrap().format("%FT%TZ").to_string()
}

} // verus!
