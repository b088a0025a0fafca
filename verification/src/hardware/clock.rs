//! Decoding of the real-time clock registers.
use vstd::prelude::*;

verus! {

/// Value of a binary-coded-decimal byte.
pub open spec fn spec_cvt_bcd(value: int) -> int {
    value % 16 + (value / 16) * 10
}

/// Converts a binary-coded-decimal value: low nibble for the units, the
/// rest for the tens.
pub fn cvt_bcd(value: usize) -> (r: usize)
    ensures
        r == spec_cvt_bcd(value as int),
{
    assert(value & 0xF == value % 16) by (bit_vector);
    (value & 0xF) + ((value / 16) * 10)
}

/// Day of the week.
#[derive(Debug, PartialEq, Eq, Structural)]
pub enum WeekDay {
    Monday,
    Tuesday,
    Wednesday,
    Thursday,
    Friday,
    Saturday,
    Sunday,
}

impl WeekDay {
    /// The day numbered `index` by the clock, Sunday being 1; unknown
    /// numbers give Monday.
    pub fn from_int(index: u8) -> (d: Self)
        ensures
            d == match index {
                1 => WeekDay::Sunday,
                3 => WeekDay::Tuesday,
                4 => WeekDay::Wednesday,
                5 => WeekDay::Thursday,
                6 => WeekDay::Friday,
                7 => WeekDay::Saturday,
                _ => WeekDay::Monday,
            },
    {
        match index {
            2 => Self::Monday,
            3 => Self::Tuesday,
            4 => Self::Wednesday,
            5 => Self::Thursday,
            6 => Self::Friday,
            7 => Self::Saturday,
            1 => Self::Sunday,
            _ => Self::Monday,
        }
    }
}

/// A date and time of day.
#[derive(Debug, PartialEq, Eq, Structural)]
pub struct Time {
    pub second: usize,
    pub minute: usize,
    pub hour: usize,
    pub day: usize,
    pub month: usize,
    pub year: usize,
    pub century: usize,
}

/// The hour once decoded from its register: converted from decimal digits
/// unless status register B says binary, keeping the afternoon bit.
pub open spec fn spec_decoded_hour(hour: u8, register_b: u8) -> int {
    if register_b & 4 != 4 {
        spec_cvt_bcd((hour & 0x7F) as int) + (hour & 0x80) as int
    } else {
        hour as int
    }
}

/// A register value as the clock gives it: decimal digits unless status
/// register B says binary.
pub open spec fn spec_decoded(v: u8, register_b: u8) -> int {
    if register_b & 4 != 4 {
        spec_cvt_bcd(v as int)
    } else {
        v as int
    }
}

impl Time {
    /// The time held by the clock registers, with status register B
    /// telling the encoding: decimal digits unless bit 2 is set, a 12-hour
    /// clock unless bit 1 is set; the year is counted in the 21st century.
    pub fn from_registers(
        second: u8,
        minute: u8,
        hour: u8,
        day: u8,
        month: u8,
        year: u8,
        register_b: u8,
    ) -> (t: Self)
        ensures
            t.second == spec_decoded(second, register_b),
            t.minute == spec_decoded(minute, register_b),
            t.day == spec_decoded(day, register_b),
            t.month == spec_decoded(month, register_b),
            t.year == spec_decoded(year, register_b) + 2000,
            t.century == 21,
            t.hour == ({
                let h = spec_decoded_hour(hour, register_b);
                if register_b & 2 != 2 || (h as usize) & 0x80 == 0x80 {
                    ((h as usize & 0x7F) + 12) % 24
                } else {
                    h
                }
            }),
    {
        let ghost hu = hour;
        let mut second = second as usize;
        let mut minute = minute as usize;
        let mut hour = hour as usize;
        let mut day = day as usize;
        let mut month = month as usize;
        let mut year = year as usize;
        let century = 21usize;
        if register_b & 4 != 4 {
            second = cvt_bcd(second);
            minute = cvt_bcd(minute);
            let h = hour;
            assert((hu & 0x7F) as usize == h & 0x7F && (hu & 0x80) as usize == h & 0x80) by (bit_vector)
                requires
                    h == hu as usize,
            ;
            assert((h & 0x80) == 0 || (h & 0x80) == 0x80) by (bit_vector);
            assert((h & 0x7F) <= 0x7F) by (bit_vector);
            let c = cvt_bcd(h & 0x7F);
            assert(c <= 0x7F);
            assert((c | (h & 0x80)) == c + (h & 0x80)) by (bit_vector)
                requires
                    c <= 0x7F,
                    (h & 0x80) == 0 || (h & 0x80) == 0x80,
            ;
            hour = c | (h & 0x80);
            day = cvt_bcd(day);
            month = cvt_bcd(month);
            year = cvt_bcd(year);
        }
        let hh = hour;
        assert((hh & 0x7F) <= 0x7F) by (bit_vector);
        if register_b & 2 != 2 || hour & 0x80 == 0x80 {
            hour = ((hour & 0x7F) + 12) % 24;
        }
        Self { century, second, minute, hour, day, month, year: year + 100 * (century - 1) }
    }
}

} // verus!
