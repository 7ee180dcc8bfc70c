//! The CMOS real-time clock: which registers to read, when a read may be trusted,
//! how the packed BCD values decode, and how a time and date are shown.
use vstd::prelude::*;
use vstd::string::StringExecFns;

verus! {

/// The number that a packed binary-coded-decimal byte stands for: the high nibble
/// counts tens and the low nibble counts units.
pub open spec fn bcd_value(value: u8) -> int {
    (value / 16) * 10 + (value % 16)
}

/// Decodes a packed BCD byte as read from a CMOS register.
pub fn bcd(value: u8) -> (r: u8)
    ensures
        r == bcd_value(value),
{
    let tens = (value & 0xF0u8) >> 4;
    let singles = value & 0x0Fu8;
    assert(tens == value / 16 && singles == value % 16) by (bit_vector)
        requires
            tens == (value & 0xF0u8) >> 4,
            singles == value & 0x0Fu8,
    ;
    tens * 10 + singles
}


/// Port through which a register is selected.
pub const SELECT_PORT: u16 = 0x70;

/// Port through which the selected register is read.
pub const DATA_PORT: u16 = 0x71;

/// Status register A, whose top bit is set while the clock updates its registers.
pub const STATUS_REGISTER_A: u8 = 0x0A;

/// Bit of status register A that is set while an update is in progress.
pub const UPDATE_IN_PROGRESS: u8 = 0x80;

/// Bit set in a register selection to keep non-maskable interrupts disabled.
pub const NMI_DISABLE: u8 = 0x80;

pub const SECONDS_REGISTER: u8 = 0x00;
pub const MINUTES_REGISTER: u8 = 0x02;
pub const HOURS_REGISTER: u8 = 0x04;
pub const DAY_REGISTER: u8 = 0x07;
pub const MONTH_REGISTER: u8 = 0x08;
pub const YEAR_REGISTER: u8 = 0x09;

/// Whether status register A says that the clock is updating, so the time registers
/// must not be read yet.
pub fn update_in_progress(status_a: u8) -> (r: bool)
    ensures
        r == (status_a >= 0x80),
{
    let r = status_a & UPDATE_IN_PROGRESS != 0;
    assert(r == (status_a >= 0x80)) by (bit_vector)
        requires
            r == (status_a & 0x80u8 != 0),
    ;
    r
}

/// The byte written to the select port to read register `reg` with non-maskable
/// interrupts kept disabled.
pub fn read_selector(reg: u8) -> (r: u8)
    requires
        reg < 0x80,
    ensures
        r == reg + 0x80,
{
    let r = reg | NMI_DISABLE;
    assert(r == reg + 0x80) by (bit_vector)
        requires
            r == reg | 0x80u8,
            reg < 0x80u8,
    ;
    r
}

/// A time of day as the clock keeps it.
#[derive(Debug, Clone, Copy, PartialEq, Eq)]
pub struct Time {
    hours: u8,
    minutes: u8,
    seconds: u8,
}

/// A date as the clock keeps it (year within the century).
#[derive(Debug, Clone, Copy, PartialEq, Eq)]
pub struct Date {
    year: u8,
    month: u8,
    day: u8,
}

/// A time and a date.
#[derive(Debug, Clone, Copy, PartialEq, Eq)]
pub struct TimeAndDate {
    date: Date,
    time: Time,
}

/// The decimal digit `d` as a character.
pub open spec fn digit_char(d: int) -> char {
    seq!['0', '1', '2', '3', '4', '5', '6', '7', '8', '9'][d]
}

/// `v` in decimal, at least two digits wide, padded with a leading zero.
pub open spec fn two_digits(v: u8) -> Seq<char> {
    if v < 10 {
        seq!['0', digit_char(v as int)]
    } else if v < 100 {
        seq![digit_char((v / 10) as int), digit_char((v % 10) as int)]
    } else {
        seq![digit_char((v / 100) as int), digit_char(((v / 10) % 10) as int), digit_char((v % 10) as int)]
    }
}

/// Appends the decimal digit `d`.
fn push_digit(s: &mut String, d: u8)
    requires
        d < 10,
    ensures
        final(s)@ == old(s)@.push(digit_char(d as int)),
{
    proof {
        reveal_strlit("0");
        reveal_strlit("1");
        reveal_strlit("2");
        reveal_strlit("3");
        reveal_strlit("4");
        reveal_strlit("5");
        reveal_strlit("6");
        reveal_strlit("7");
        reveal_strlit("8");
        reveal_strlit("9");
    }
    if d == 0 {
        s.append("0");
    } else if d == 1 {
        s.append("1");
    } else if d == 2 {
        s.append("2");
    } else if d == 3 {
        s.append("3");
    } else if d == 4 {
        s.append("4");
    } else if d == 5 {
        s.append("5");
    } else if d == 6 {
        s.append("6");
    } else if d == 7 {
        s.append("7");
    } else if d == 8 {
        s.append("8");
    } else {
        s.append("9");
    }
}

/// Appends `v` in decimal, at least two digits wide.
fn push_two_digits(s: &mut String, v: u8)
    ensures
        final(s)@ == old(s)@ + two_digits(v),
{
    let ghost start = s@;
    if v < 10 {
        push_digit(s, 0);
        push_digit(s, v);
    } else if v < 100 {
        push_digit(s, v / 10);
        push_digit(s, v % 10);
    } else {
        push_digit(s, v / 100);
        push_digit(s, (v / 10) % 10);
        push_digit(s, v % 10);
    }
    assert(s@ =~= start + two_digits(v));
}

impl Time {
    pub closed spec fn hours_spec(&self) -> u8 {
        self.hours
    }

    pub closed spec fn minutes_spec(&self) -> u8 {
        self.minutes
    }

    pub closed spec fn seconds_spec(&self) -> u8 {
        self.seconds
    }

    /// The time read from the clock's seconds, minutes and hours registers.
    pub fn from_registers(seconds: u8, minutes: u8, hours: u8) -> (r: Time)
        ensures
            r.seconds_spec() == bcd_value(seconds),
            r.minutes_spec() == bcd_value(minutes),
            r.hours_spec() == bcd_value(hours),
    {
        Time { hours: bcd(hours), minutes: bcd(minutes), seconds: bcd(seconds) }
    }

    #[verifier::when_used_as_spec(hours_spec)]
    pub fn hours(&self) -> (r: u8)
        ensures
            r == self.hours_spec(),
    {
        self.hours
    }

    #[verifier::when_used_as_spec(minutes_spec)]
    pub fn minutes(&self) -> (r: u8)
        ensures
            r == self.minutes_spec(),
    {
        self.minutes
    }

    #[verifier::when_used_as_spec(seconds_spec)]
    pub fn seconds(&self) -> (r: u8)
        ensures
            r == self.seconds_spec(),
    {
        self.seconds
    }

    /// The time as `HH:MM:SS`.
    pub open spec fn text(&self) -> Seq<char> {
        two_digits(self.hours_spec()) + seq![':'] + two_digits(self.minutes_spec()) + seq![':']
            + two_digits(self.seconds_spec())
    }

    /// The time as `HH:MM:SS`.
    pub fn to_string(&self) -> (r: String)
        ensures
            r@ == self.text(),
    {
        proof {
            reveal_strlit(":");
        }
        let mut s = String::new();
        push_two_digits(&mut s, self.hours);
        s.append(":");
        push_two_digits(&mut s, self.minutes);
        s.append(":");
        push_two_digits(&mut s, self.seconds);
        assert(s@ =~= self.text());
        s
    }
}

impl Date {
    pub closed spec fn year_spec(&self) -> u8 {
        self.year
    }

    pub closed spec fn month_spec(&self) -> u8 {
        self.month
    }

    pub closed spec fn day_spec(&self) -> u8 {
        self.day
    }

    /// The date read from the clock's day, month and year registers.
    pub fn from_registers(day: u8, month: u8, year: u8) -> (r: Date)
        ensures
            r.day_spec() == bcd_value(day),
            r.month_spec() == bcd_value(month),
            r.year_spec() == bcd_value(year),
    {
        Date { year: bcd(year), month: bcd(month), day: bcd(day) }
    }

    #[verifier::when_used_as_spec(year_spec)]
    pub fn year(&self) -> (r: u8)
        ensures
            r == self.year_spec(),
    {
        self.year
    }

    #[verifier::when_used_as_spec(month_spec)]
    pub fn month(&self) -> (r: u8)
        ensures
            r == self.month_spec(),
    {
        self.month
    }

    #[verifier::when_used_as_spec(day_spec)]
    pub fn day(&self) -> (r: u8)
        ensures
            r == self.day_spec(),
    {
        self.day
    }

    /// The date as `DD/MM/YY`.
    pub open spec fn text(&self) -> Seq<char> {
        two_digits(self.day_spec()) + seq!['/'] + two_digits(self.month_spec()) + seq!['/'] + two_digits(
            self.year_spec(),
        )
    }

    /// The date as `DD/MM/YY`.
    pub fn to_string(&self) -> (r: String)
        ensures
            r@ == self.text(),
    {
        proof {
            reveal_strlit("/");
        }
        let mut s = String::new();
        push_two_digits(&mut s, self.day);
        s.append("/");
        push_two_digits(&mut s, self.month);
        s.append("/");
        push_two_digits(&mut s, self.year);
        assert(s@ =~= self.text());
        s
    }
}

impl TimeAndDate {
    pub closed spec fn time_spec(&self) -> Time {
        self.time
    }

    pub closed spec fn date_spec(&self) -> Date {
        self.date
    }

    /// The time and date read from the clock, with `offset` hours added to the time
    /// (the hour wraps at 24; the date is left as read).
    pub fn new(time: Time, date: Date, offset: u8) -> (r: TimeAndDate)
        requires
            time.hours_spec() + offset <= u8::MAX,
        ensures
            r.time_spec().hours_spec() == (time.hours_spec() + offset) % 24,
            r.time_spec().minutes_spec() == time.minutes_spec(),
            r.time_spec().seconds_spec() == time.seconds_spec(),
            r.date_spec() == date,
    {
        let mut time = time;
        time.hours = time.hours + offset;
        time.hours = time.hours % 24;
        TimeAndDate { time, date }
    }

    #[verifier::when_used_as_spec(time_spec)]
    pub fn time(&self) -> (r: Time)
        ensures
            r == self.time_spec(),
    {
        self.time
    }

    #[verifier::when_used_as_spec(date_spec)]
    pub fn date(&self) -> (r: Date)
        ensures
            r == self.date_spec(),
    {
        self.date
    }

    /// The time on one line and the date on the next.
    pub fn to_string(&self) -> (r: String)
        ensures
            r@ == self.time_spec().text() + seq!['\n'] + self.date_spec().text(),
    {
        proof {
            reveal_strlit("\n");
        }
        let mut s = self.time.to_string();
        s.append("\n");
        let d = self.date.to_string();
        s.append(d.as_str());
        s
    }
}

} // verus!
