//! Calendar dates, their `YYYY-MM-DD` text form and their order.

use vstd::prelude::*;
use vstd::string::StringSliceAdditionalSpecFns;
use crate::text::{ascii_chars, ascii_string, is_ascii_bytes, lemma_ascii_byte_char, lemma_ascii_char_byte};

verus! {

/// A calendar date of the proleptic Gregorian calendar.
#[derive(Clone, Copy, Debug, PartialEq, Eq, Structural)]
pub struct Date {
    pub year: u16,
    pub month: u8,
    pub day: u8,
}

pub open spec fn is_leap_year(y: int) -> bool {
    (y % 4 == 0 && y % 100 != 0) || y % 400 == 0
}

pub open spec fn days_in_month(y: int, m: int) -> int {
    if m == 2 {
        if is_leap_year(y) { 29 } else { 28 }
    } else if m == 4 || m == 6 || m == 9 || m == 11 {
        30
    } else {
        31
    }
}

impl Date {
    /// A real date, with a year of at most four digits.
    pub open spec fn wf(self) -> bool {
        &&& self.year <= 9999
        &&& 1 <= self.month <= 12
        &&& 1 <= self.day <= days_in_month(self.year as int, self.month as int)
    }

    /// Ordering dates by this number orders them in time.
    pub open spec fn key(self) -> int {
        self.year * 10000 + self.month * 100 + self.day
    }

    /// The bytes of the `YYYY-MM-DD` form.
    pub open spec fn text_bytes(self) -> Seq<u8> {
        let y = self.year as int;
        let m = self.month as int;
        let d = self.day as int;
        seq![
            (48 + y / 1000) as u8,
            (48 + (y / 100) % 10) as u8,
            (48 + (y / 10) % 10) as u8,
            (48 + y % 10) as u8,
            45u8,
            (48 + m / 10) as u8,
            (48 + m % 10) as u8,
            45u8,
            (48 + d / 10) as u8,
            (48 + d % 10) as u8,
        ]
    }

    /// The `YYYY-MM-DD` form.
    pub open spec fn text(self) -> Seq<char> {
        ascii_chars(self.text_bytes())
    }

    /// The date with these parts, where they name a real date.
    pub fn new(year: u16, month: u8, day: u8) -> (r: Option<Date>)
        ensures
            r == (if (Date { year, month, day }).wf() {
                Some(Date { year, month, day })
            } else {
                None
            }),
    {
        if year > 9999 || month < 1 || month > 12 || day < 1 {
            return None;
        }
        let leap = (year % 4 == 0 && year % 100 != 0) || year % 400 == 0;
        let last: u8 = if month == 2 {
            if leap { 29 } else { 28 }
        } else if month == 4 || month == 6 || month == 9 || month == 11 {
            30
        } else {
            31
        };
        if day > last {
            None
        } else {
            Some(Date { year, month, day })
        }
    }

    /// The number that orders dates in time.
    pub fn sort_key(&self) -> (r: u32)
        ensures
            r == self.key(),
    {
        self.year as u32 * 10000 + self.month as u32 * 100 + self.day as u32
    }

    /// The `YYYY-MM-DD` text of a date.
    pub fn to_text(&self) -> (r: String)
        requires
            self.wf(),
        ensures
            r@ == self.text(),
    {
        let y = self.year;
        let m = self.month;
        let d = self.day;
        let mut b: Vec<u8> = Vec::new();
        b.push(48 + (y / 1000) as u8);
        b.push(48 + ((y / 100) % 10) as u8);
        b.push(48 + ((y / 10) % 10) as u8);
        b.push(48 + (y % 10) as u8);
        b.push(45);
        b.push(48 + m / 10);
        b.push(48 + m % 10);
        b.push(45);
        b.push(48 + d / 10);
        b.push(48 + d % 10);
        assert(b@ =~= self.text_bytes());
        ascii_string(b)
    }

    /// The date that `text` writes in the `YYYY-MM-DD` form, if any.
    #[verifier::rlimit(40)]
    pub fn parse(text: &str) -> (r: Option<Date>)
        ensures
            match r {
                Some(d) => d.wf() && d.text() == text@,
                None => forall|d: Date| #[trigger] d.wf() ==> d.text() != text@,
            },
    {
        if !text.is_ascii() {
            proof {
                assert forall|d: Date| #[trigger] d.wf() implies d.text() != text@ by {
                    if d.text() == text@ {
                        lemma_text_of(d, text);
                    }
                }
            }
            return None;
        }
        let b = text.as_bytes();
        proof {
            vstd::string::is_ascii_spec_bytes(text);
        }
        let ok = b.len() == 10 && b[4] == 45 && b[7] == 45 && digits_and_dashes(b);
        if !ok {
            proof {
                assert forall|d: Date| #[trigger] d.wf() implies d.text() != text@ by {
                    if d.text() == text@ {
                        lemma_text_of(d, text);
                        lemma_text_bytes_digits(d);
                    }
                }
            }
            return None;
        }
        let year: u16 = (b[0] - 48) as u16 * 1000 + (b[1] - 48) as u16 * 100 + (b[2] - 48) as u16
            * 10 + (b[3] - 48) as u16;
        let month: u8 = (b[5] - 48) * 10 + (b[6] - 48);
        let day: u8 = (b[8] - 48) * 10 + (b[9] - 48);
        let r = Date::new(year, month, day);
        proof {
            let c = Date { year, month, day };
            assert(b@[4] == 45 && b@[7] == 45);
            lemma_bytes_date(b@, c);
            assert forall|j: int| 0 <= j < 10 implies c.text()[j] == text@[j] by {
                lemma_ascii_char_byte(text@[j]);
            }
            assert(c.text() =~= text@);
            assert forall|d: Date| #[trigger] d.wf() && d.text() == text@ implies d == c by {
                lemma_text_of(d, text);
                lemma_bytes_date(b@, d);
            }
        }
        r
    }
}

/// The text of a date is ASCII, and its bytes are the date's bytes.
proof fn lemma_text_of(d: Date, text: &str)
    requires
        d.wf(),
        d.text() == text@,
    ensures
        vstd::string::is_ascii(text),
        text.spec_bytes() == d.text_bytes(),
{
    lemma_text_bytes_digits(d);
    crate::text::lemma_ascii_utf8(d.text_bytes());
    vstd::string::is_ascii_spec_bytes(text);
    assert forall|i: int| 0 <= i < 10 implies text.spec_bytes()[i] == d.text_bytes()[i] by {
        lemma_ascii_byte_char(d.text_bytes()[i]);
    }
    assert(text.spec_bytes() =~= d.text_bytes());
}

/// The bytes of a date's text are digits and two dashes.
proof fn lemma_text_bytes_digits(d: Date)
    requires
        d.wf(),
    ensures
        is_ascii_bytes(d.text_bytes()),
        d.text_bytes().len() == 10,
        d.text_bytes()[4] == 45,
        d.text_bytes()[7] == 45,
        forall|j: int| 0 <= j < 10 && j != 4 && j != 7 ==> 48 <= #[trigger] d.text_bytes()[j] <= 57,
{
}

/// Whether the ten bytes hold digits everywhere but at the two dashes.
fn digits_and_dashes(b: &[u8]) -> (r: bool)
    requires
        b@.len() == 10,
    ensures
        r == forall|j: int| 0 <= j < 10 && j != 4 && j != 7 ==> 48 <= #[trigger] b@[j] <= 57,
{
    let mut i: usize = 0;
    while i < 10
        invariant
            b@.len() == 10,
            0 <= i <= 10,
            forall|j: int| 0 <= j < i && j != 4 && j != 7 ==> 48 <= #[trigger] b@[j] <= 57,
        decreases 10 - i,
    {
        if i != 4 && i != 7 && (b[i] < 48 || b[i] > 57) {
            return false;
        }
        i = i + 1;
    }
    true
}

proof fn lemma_four_digits(y: int, a: int, b: int, c: int, d: int)
    requires
        0 <= a <= 9,
        0 <= b <= 9,
        0 <= c <= 9,
        0 <= d <= 9,
    ensures
        (y == a * 1000 + b * 100 + c * 10 + d) <==> (0 <= y < 10000 && y / 1000 == a && (y / 100) % 10 == b
            && (y / 10) % 10 == c && y % 10 == d),
{
    if 0 <= y < 10000 {
        assert(y == (y / 1000) * 1000 + ((y / 100) % 10) * 100 + ((y / 10) % 10) * 10 + y % 10)
            by (nonlinear_arith) requires 0 <= y < 10000;
    }
}

proof fn lemma_two_digits(y: int, a: int, b: int)
    requires
        0 <= a <= 9,
        0 <= b <= 9,
    ensures
        (y == a * 10 + b) <==> (0 <= y < 100 && y / 10 == a && y % 10 == b),
{
}

/// Bytes of digits and dashes that give a date's parts are that date's bytes.
proof fn lemma_bytes_date(b: Seq<u8>, c: Date)
    requires
        c.year <= 9999,
        c.month <= 99,
        c.day <= 99,
        b.len() == 10,
        b[4] == 45,
        b[7] == 45,
        forall|j: int| 0 <= j < 10 && j != 4 && j != 7 ==> 48 <= #[trigger] b[j] <= 57,
    ensures
        b == c.text_bytes() <==> (c.year == (b[0] - 48) * 1000 + (b[1] - 48) * 100 + (b[2] - 48) * 10
            + (b[3] - 48) && c.month == (b[5] - 48) * 10 + (b[6] - 48) && c.day == (b[8] - 48) * 10
            + (b[9] - 48)),
{
    assert(48 <= b[0] <= 57 && 48 <= b[1] <= 57 && 48 <= b[2] <= 57 && 48 <= b[3] <= 57);
    assert(48 <= b[5] <= 57 && 48 <= b[6] <= 57 && 48 <= b[8] <= 57 && 48 <= b[9] <= 57);
    lemma_four_digits(c.year as int, b[0] - 48, b[1] - 48, b[2] - 48, b[3] - 48);
    lemma_two_digits(c.month as int, b[5] - 48, b[6] - 48);
    lemma_two_digits(c.day as int, b[8] - 48, b[9] - 48);
    let t = c.text_bytes();
    if b == t {
        assert(b[0] == t[0] && b[1] == t[1] && b[2] == t[2] && b[3] == t[3]);
        assert(b[5] == t[5] && b[6] == t[6] && b[8] == t[8] && b[9] == t[9]);
    }
    if c.year == (b[0] - 48) * 1000 + (b[1] - 48) * 100 + (b[2] - 48) * 10 + (b[3] - 48)
        && c.month == (b[5] - 48) * 10 + (b[6] - 48) && c.day == (b[8] - 48) * 10 + (b[9] - 48) {
        assert(t =~= b);
    }
}

} // verus!
