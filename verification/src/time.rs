//! Instants, and the date and time words a directory entry stores them as.
use vstd::prelude::*;

verus! {

/// An instant: seconds since the beginning of 1970 in UTC, and nanoseconds past them.
#[derive(Clone, Copy, PartialEq, Eq, Debug, Structural)]
pub struct Timestamp {
    /// Seconds since the beginning of 1970.
    pub secs: i64,
    /// Nanoseconds past the second.
    pub nanos: u32,
}

impl Timestamp {
    /// The instant a whole number of seconds after the beginning of 1970.
    #[must_use]
    pub fn from_secs(secs: i64) -> (time: Self)
        ensures
            time.secs == secs,
            time.nanos == 0,
    {
        Timestamp { secs, nanos: 0 }
    }
}

/// A date and a time of day as a directory entry stores them.
#[derive(Clone, Copy, PartialEq, Eq, Debug, Structural)]
pub struct DosTimestamp {
    /// Years since 1980, the month and the day.
    pub date: u16,
    /// The hour, the minute and half the seconds.
    pub time: u16,
    /// Hundredths of a second past the time, up to two seconds of them.
    pub tenth: u8,
}

/// The bit of an offset byte that says an offset was recorded.
pub const UTC_OFFSET_VALID: u8 = 0x80;

/// The offset byte of a time in UTC.
pub const UTC_OFFSET: u8 = 0x80;

/// Seconds of a day.
pub const SECS_PER_DAY: u64 = 86_400;

/// The beginning of 1980, in seconds since the beginning of 1970.
pub const SECS_1980: i64 = 315_532_800;

/// Days from the beginning of 1980 to the beginning of 2108.
pub const DAYS_HELD: u64 = 46_751;

/// Whether the year `y` years after 1980 has a 29th of February. Of the years a date word
/// holds, 2100 is the one the hundred-year rule takes it from.
pub open spec fn leap(y: int) -> bool {
    y % 4 == 0 && y != 120
}

/// Days of the year `y` years after 1980.
pub open spec fn year_len(y: int) -> int {
    if leap(y) {
        366
    } else {
        365
    }
}

/// Days from the beginning of 1980 to the beginning of the year `y` years after it.
pub open spec fn year_start(y: int) -> int
    decreases y,
{
    if y <= 0 {
        0
    } else {
        year_start(y - 1) + year_len(y - 1)
    }
}

/// Days of month `m` of the year `y` years after 1980. A month field holds up to fifteen, and
/// the months outside a year are those of the years beside it.
pub open spec fn month_len(y: int, m: int) -> int {
    if m == 2 {
        if leap(y) {
            29
        } else {
            28
        }
    } else if m == 14 {
        if leap(y + 1) {
            29
        } else {
            28
        }
    } else if m == 4 || m == 6 || m == 9 || m == 11 {
        30
    } else {
        31
    }
}

/// Days from the beginning of the year to the beginning of month `m`.
pub open spec fn month_start(y: int, m: int) -> int
    decreases m,
{
    if m <= 0 {
        -31
    } else {
        month_start(y, m - 1) + month_len(y, m - 1)
    }
}

/// The year day `day` since the beginning of 1980 is in, from the year `y` years after it on.
pub open spec fn year_of(day: int, y: int) -> int
    decreases 127 - y,
{
    if y >= 127 || day < year_start(y + 1) {
        y
    } else {
        year_of(day, y + 1)
    }
}

/// The month day `of_year` of the year `y` years after 1980 is in, from month `m` on.
pub open spec fn month_of(y: int, of_year: int, m: int) -> int
    decreases 12 - m,
{
    if m >= 12 || of_year < month_start(y, m + 1) {
        m
    } else {
        month_of(y, of_year, m + 1)
    }
}

/// The words of an instant in the range they hold, to the hundredth of a second below it.
pub open spec fn stamp_of(time: Timestamp) -> DosTimestamp {
    let since = time.secs - SECS_1980;
    let day = since / 86_400;
    let of_day = since % 86_400;
    let y = year_of(day, 0);
    let m = month_of(y, day - year_start(y), 1);
    let d = day - year_start(y) - month_start(y, m) + 1;
    DosTimestamp {
        date: (y * 512 + m * 32 + d) as u16,
        time: ((of_day / 3600) * 2048 + (of_day / 60 % 60) * 32 + of_day % 60 / 2) as u16,
        tenth: (of_day % 2 * 100 + hundredths(time.nanos)) as u8,
    }
}

impl DosTimestamp {
    /// The earliest instant the words hold, in seconds since the beginning of 1970.
    pub const SECS_MIN: i64 = 315_532_800;

    /// The latest instant the words hold, in seconds since the beginning of 1970.
    pub const SECS_MAX: i64 = 4_354_819_199;

    /// Years since 1980.
    pub open spec fn year(self) -> int {
        self.date as int / 512
    }

    /// The month.
    pub open spec fn month(self) -> int {
        (self.date as int / 32) % 16
    }

    /// The day of the month.
    pub open spec fn day(self) -> int {
        self.date as int % 32
    }

    /// The hour.
    pub open spec fn hour(self) -> int {
        self.time as int / 2048
    }

    /// The minute.
    pub open spec fn minute(self) -> int {
        (self.time as int / 32) % 64
    }

    /// Half the seconds.
    pub open spec fn half_second(self) -> int {
        self.time as int % 32
    }

    /// Days since the beginning of 1980.
    pub open spec fn days(self) -> int {
        year_start(self.year()) + month_start(self.year(), self.month()) + self.day() - 1
    }

    /// The instant the words spell, in seconds since the beginning of 1970.
    pub open spec fn instant_secs(self) -> int {
        SECS_1980 + self.days() * 86_400 + self.hour() * 3600 + self.minute() * 60 + 2
            * self.half_second() + self.tenth as int / 100
    }

    /// Nanoseconds past the second of the instant the words spell.
    pub open spec fn instant_nanos(self) -> int {
        (self.tenth as int % 100) * 10_000_000
    }

    /// Whether every field is in the range the encoding defines for it.
    pub open spec fn in_range(self) -> bool {
        &&& 1 <= self.month() <= 12
        &&& 1 <= self.day() <= 31
        &&& self.hour() < 24
        &&& self.minute() < 60
        &&& self.half_second() < 30
        &&& self.tenth < 200
    }

    /// Whether the words spell a day its month has.
    pub open spec fn on_the_calendar(self) -> bool {
        self.in_range() && self.day() <= month_len(self.year(), self.month())
    }

    /// Whether every field is in the range the encoding defines for it and the words spell a day
    /// its month has.
    #[must_use]
    pub fn is_well_formed(&self) -> (yes: bool)
        ensures
            yes == self.on_the_calendar(),
    {
        let year: u16 = self.date / 512;
        let month: u16 = (self.date / 32) % 16;
        let day: u16 = self.date % 32;
        let days: u16 = if month == 2 {
            if year % 4 == 0 && year != 120 {
                29
            } else {
                28
            }
        } else if month == 4 || month == 6 || month == 9 || month == 11 {
            30
        } else {
            31
        };
        1 <= month && month <= 12 && 1 <= day && day <= days && self.time / 2048 < 24 && (self.time
            / 32) % 64 < 60 && self.time % 32 < 30 && self.tenth < 200
    }

    /// The words of an instant, to the hundredth of a second below it, or nothing where the
    /// instant is outside the years 1980 to 2107.
    #[must_use]
    pub fn encode(time: Timestamp) -> (stamp: Option<Self>)
        ensures
            stamp is Some <==> Self::SECS_MIN <= time.secs <= Self::SECS_MAX,
            stamp is Some ==> stamp->Some_0 == stamp_of(time),
            stamp is Some ==> stamp->Some_0.on_the_calendar() && stamp->Some_0.instant_secs()
                == time.secs && stamp->Some_0.instant_nanos() == hundredths(time.nanos)
                * 10_000_000,
    {
        if time.secs < Self::SECS_MIN || time.secs > Self::SECS_MAX {
            return None;
        }
        let since: u64 = (time.secs - SECS_1980) as u64;
        let mut days: u64 = since / SECS_PER_DAY;
        let of_day: u64 = since % SECS_PER_DAY;
        let ghost all = days as int;
        proof {
            lemma_year_start_2108();
        }
        let mut y: u16 = 0;
        let mut len: u64 = 366;
        while days >= len
            invariant
                y <= 127,
                len == year_len(y as int),
                all == year_start(y as int) + days,
                all < year_start(128),
                year_of(all, y as int) == year_of(all, 0),
            decreases days,
        {
            proof {
                assert(year_start(y + 1) == year_start(y as int) + year_len(y as int));
                if y == 127 {
                    assert(year_start(128) == year_start(127) + year_len(127));
                }
            }
            days = days - len;
            y += 1;
            len = if y % 4 == 0 && y != 120 {
                366
            } else {
                365
            };
        }
        proof {
            assert(year_start(y + 1) == year_start(y as int) + year_len(y as int));
            assert(year_of(all, 0) == y);
        }
        let leap_year: bool = y % 4 == 0 && y != 120;
        let mut m: u16 = 1;
        let ghost of_year = days as int;
        assert(month_start(y as int, 0) == -31);
        assert(month_start(y as int, 1) == 0);
        assert(month_len(y as int, 1) == 31);
        len = 31;
        proof {
            lemma_month_start_13(y as int);
        }
        while days >= len
            invariant
                1 <= m <= 12,
                y <= 127,
                leap_year == leap(y as int),
                len == month_len(y as int, m as int),
                of_year == month_start(y as int, m as int) + days,
                of_year < year_len(y as int),
                month_start(y as int, 13) == year_len(y as int),
                month_of(y as int, of_year, m as int) == month_of(y as int, of_year, 1),
            decreases days,
        {
            proof {
                assert(month_start(y as int, m + 1) == month_start(y as int, m as int) + month_len(
                    y as int,
                    m as int,
                ));
                if m == 12 {
                    assert(month_start(y as int, 13) == month_start(y as int, 12) + month_len(
                        y as int,
                        12,
                    ));
                }
            }
            days = days - len;
            m += 1;
            len = if m == 2 {
                if leap_year {
                    29
                } else {
                    28
                }
            } else if m == 4 || m == 6 || m == 9 || m == 11 {
                30
            } else {
                31
            };
        }
        proof {
            assert(month_start(y as int, m + 1) == month_start(y as int, m as int) + month_len(
                y as int,
                m as int,
            ));
            assert(month_of(y as int, of_year, 1) == m);
        }
        let d: u16 = days as u16 + 1;
        let hour: u16 = (of_day / 3600) as u16;
        let minute: u16 = ((of_day / 60) % 60) as u16;
        let second: u16 = (of_day % 60) as u16;
        let past: u32 = time.nanos / 10_000_000;
        let past: u8 = if past > 99 {
            99
        } else {
            past as u8
        };
        let stamp = DosTimestamp {
            date: y * 512 + m * 32 + d,
            time: hour * 2048 + minute * 32 + second / 2,
            tenth: ((second % 2) as u8) * 100 + past,
        };
        proof {
            lemma_of_day(of_day as int);
            assert(stamp.date == y * 512 + m * 32 + d);
            lemma_stamp_round_trip(time);
            assert(stamp == stamp_of(time));
        }
        Some(stamp)
    }

    /// The instant the words spell, whether or not every field is in range.
    #[must_use]
    pub fn decode(&self) -> (time: Timestamp)
        ensures
            time.secs == self.instant_secs(),
            time.nanos == self.instant_nanos(),
            300_000_000 <= time.secs <= 5_000_000_000,
    {
        let y: u16 = self.date / 512;
        let m: u16 = (self.date / 32) % 16;
        let d: u16 = self.date % 32;
        let mut days: i64 = 0;
        let mut i: u16 = 0;
        while i < y
            invariant
                i <= y <= 127,
                days == year_start(i as int),
                0 <= days <= 366 * i,
            decreases y - i,
        {
            days = days + if i % 4 == 0 && i != 120 {
                366
            } else {
                365
            };
            i += 1;
        }
        let mut of_year: i64 = -31;
        i = 0;
        while i < m
            invariant
                i <= m <= 15,
                y <= 127,
                of_year == month_start(y as int, i as int),
                -31 <= of_year <= 31 * i - 31,
            decreases m - i,
        {
            of_year = of_year + if i == 2 {
                if y % 4 == 0 && y != 120 {
                    29
                } else {
                    28
                }
            } else if i == 14 {
                if (y + 1) % 4 == 0 && y + 1 != 120 {
                    29
                } else {
                    28
                }
            } else if i == 4 || i == 6 || i == 9 || i == 11 {
                30
            } else {
                31
            };
            i += 1;
        }
        let all: i64 = days + of_year + d as i64 - 1;
        let of_day: i64 = (self.time / 2048) as i64 * 3600 + ((self.time / 32) % 64) as i64 * 60 + 2
            * ((self.time % 32) as i64);
        Timestamp {
            secs: SECS_1980 + all * 86_400 + of_day + (self.tenth / 100) as i64,
            nanos: (self.tenth % 100) as u32 * 10_000_000,
        }
    }
}

/// Encoding an instant in range and decoding the words gives the instant back, to the hundredth
/// of a second below it.
pub proof fn lemma_stamp_round_trip(time: Timestamp)
    requires
        DosTimestamp::SECS_MIN <= time.secs <= DosTimestamp::SECS_MAX,
    ensures
        stamp_of(time).on_the_calendar(),
        stamp_of(time).instant_secs() == time.secs,
        stamp_of(time).instant_nanos() == hundredths(time.nanos) * 10_000_000,
{
    lemma_year_start_2108();
    let since = time.secs - SECS_1980;
    let day = since / 86_400;
    let of_day = since % 86_400;
    lemma_year_of(day, 0);
    let y = year_of(day, 0);
    let of_year = day - year_start(y);
    lemma_month_start_13(y);
    reveal_with_fuel(month_start, 3);
    lemma_month_of(y, of_year, 1);
    let m = month_of(y, of_year, 1);
    let d = of_year - month_start(y, m) + 1;
    let stamp = stamp_of(time);
    assert(1 <= d <= month_len(y, m)) by {
        assert(month_start(y, m + 1) == month_start(y, m) + month_len(y, m));
    }
    lemma_date_word(y, m, d);
    assert(stamp.year() == y && stamp.month() == m && stamp.day() == d);
    assert(stamp.days() == day);
    lemma_of_day(of_day);
    let hour = of_day / 3600;
    let minute = of_day / 60 % 60;
    let second = of_day % 60;
    lemma_time_word(hour, minute, second / 2);
    assert(stamp.hour() == hour && stamp.minute() == minute && stamp.half_second() == second / 2);
}

/// Where a year begins: 365 days for each before it, and one for each leap year among them, which
/// are every fourth from 1980 on but 2100.
pub proof fn lemma_years_follow_the_calendar(y: int)
    requires
        0 <= y <= 128,
    ensures
        year_start(y) == 365 * y + (y + 3) / 4 - (if y > 120 {
            1int
        } else {
            0int
        }),
    decreases y,
{
    if y > 0 {
        lemma_years_follow_the_calendar(y - 1);
    }
}

/// The instant of words on the calendar is the second of the hour, minute and second they spell,
/// on the day of that year, month and day: the days of the years before it, of the months before
/// it as a year has them, and of the month before it.
pub proof fn lemma_instants_follow_the_calendar(stamp: DosTimestamp)
    requires
        stamp.on_the_calendar(),
    ensures
        ({
            let y = stamp.date as int / 512;
            let m = stamp.date as int / 32 % 16;
            let d = stamp.date as int % 32;
            let leap_day = if y % 4 == 0 && y != 120 && m > 2 {
                1int
            } else {
                0int
            };
            let centuries = if y > 120 {
                1int
            } else {
                0int
            };
            let months = seq![0int, 31, 59, 90, 120, 151, 181, 212, 243, 273, 304, 334];
            &&& 1 <= m <= 12
            &&& 1 <= d <= 31
            &&& stamp.instant_secs() == 315_532_800 + 86_400 * (365 * y + (y + 3) / 4 - centuries
                + months[m - 1] + leap_day + d - 1) + 3600 * (stamp.time as int / 2048) + 60 * (
            stamp.time as int / 32 % 64) + 2 * (stamp.time as int % 32) + stamp.tenth as int / 100
            &&& stamp.instant_nanos() == stamp.tenth as int % 100 * 10_000_000
        }),
{
    lemma_years_follow_the_calendar(stamp.year());
    reveal_with_fuel(month_start, 14);
}

/// The instant any words spell is between 1979 and 2128.
pub proof fn lemma_instant_range(stamp: DosTimestamp)
    ensures
        300_000_000 <= stamp.instant_secs() <= 5_000_000_000,
        0 <= stamp.instant_nanos() < 1_000_000_000,
{
    lemma_years_follow_the_calendar(stamp.year());
    reveal_with_fuel(month_start, 16);
}

/// A date word gives back the year, the month and the day it was made of.
proof fn lemma_date_word(y: int, m: int, d: int)
    requires
        0 <= y <= 127,
        0 <= m <= 15,
        0 <= d <= 31,
    ensures
        ({
            let word = (y * 512 + m * 32 + d) as u16;
            &&& word == y * 512 + m * 32 + d
            &&& word as int / 512 == y
            &&& (word as int / 32) % 16 == m
            &&& word as int % 32 == d
        }),
{
}

/// A time word gives back the hour, the minute and half the seconds it was made of.
proof fn lemma_time_word(hour: int, minute: int, half: int)
    requires
        0 <= hour <= 31,
        0 <= minute <= 63,
        0 <= half <= 31,
    ensures
        ({
            let word = (hour * 2048 + minute * 32 + half) as u16;
            &&& word == hour * 2048 + minute * 32 + half
            &&& word as int / 2048 == hour
            &&& (word as int / 32) % 64 == minute
            &&& word as int % 32 == half
        }),
{
}

/// A second of a day is an hour, a minute and a second.
proof fn lemma_of_day(of_day: int)
    requires
        0 <= of_day < 86_400,
    ensures
        of_day == (of_day / 3600) * 3600 + (of_day / 60 % 60) * 60 + of_day % 60,
        0 <= of_day / 3600 < 24,
        0 <= of_day / 60 % 60 < 60,
        0 <= of_day % 60 / 2 < 30,
        of_day % 2 == of_day % 60 % 2,
        of_day % 60 == 2 * (of_day % 60 / 2) + of_day % 2,
{
}

/// The year a day is found to be in holds it.
proof fn lemma_year_of(day: int, y: int)
    requires
        0 <= y <= 127,
        year_start(y) <= day < year_start(128),
    ensures
        0 <= year_of(day, y) <= 127,
        year_start(year_of(day, y)) <= day < year_start(year_of(day, y) + 1),
    decreases 127 - y,
{
    if !(y >= 127 || day < year_start(y + 1)) {
        lemma_year_of(day, y + 1);
    }
}

/// The month a day is found to be in holds it.
proof fn lemma_month_of(y: int, of_year: int, m: int)
    requires
        1 <= m <= 12,
        month_start(y, m) <= of_year < month_start(y, 13),
    ensures
        1 <= month_of(y, of_year, m) <= 12,
        month_start(y, month_of(y, of_year, m)) <= of_year < month_start(
            y,
            month_of(y, of_year, m) + 1,
        ),
    decreases 12 - m,
{
    if !(m >= 12 || of_year < month_start(y, m + 1)) {
        lemma_month_of(y, of_year, m + 1);
    }
}

/// Whole hundredths of a second in `nanos`, at most those of one second.
pub open spec fn hundredths(nanos: u32) -> int {
    if nanos as int / 10_000_000 > 99 {
        99
    } else {
        nanos as int / 10_000_000
    }
}

/// Where each fourth year begins, up to 2100.
proof fn lemma_year_start_by_four(n: int)
    requires
        0 <= n <= 30,
    ensures
        year_start(4 * n) == 1461 * n,
    decreases n,
{
    if n > 0 {
        lemma_year_start_by_four(n - 1);
        let y = 4 * n;
        assert(year_start(y) == year_start(y - 1) + year_len(y - 1));
        assert(year_start(y - 1) == year_start(y - 2) + year_len(y - 2));
        assert(year_start(y - 2) == year_start(y - 3) + year_len(y - 3));
        assert(year_start(y - 3) == year_start(y - 4) + year_len(y - 4));
        assert(leap(y - 4));
        assert(!leap(y - 3) && !leap(y - 2) && !leap(y - 1));
    }
}

/// The words run out at the beginning of 2108.
proof fn lemma_year_start_2108()
    ensures
        year_start(128) == DAYS_HELD,
        DosTimestamp::SECS_MIN + DAYS_HELD * 86_400 == DosTimestamp::SECS_MAX + 1,
{
    lemma_year_start_by_four(30);
    reveal_with_fuel(year_start, 9);
}

/// The months of a year are its days.
proof fn lemma_month_start_13(y: int)
    ensures
        month_start(y, 13) == year_len(y),
{
    reveal_with_fuel(month_start, 14);
}

/// A date word and a time word as one field, the date above the time.
#[must_use]
pub fn pack_timestamp(stamp: DosTimestamp) -> (field: u32)
    ensures
        field == stamp.date * 0x1_0000 + stamp.time,
{
    stamp.date as u32 * 0x1_0000 + stamp.time as u32
}

/// The words of a field and the hundredths beside it.
pub open spec fn unpacked(field: u32, tenth: u8) -> DosTimestamp {
    DosTimestamp { date: (field / 0x1_0000) as u16, time: (field % 0x1_0000) as u16, tenth }
}

/// The words of a field and the hundredths beside it.
#[must_use]
pub fn unpack_timestamp(field: u32, tenth: u8) -> (stamp: DosTimestamp)
    ensures
        stamp == unpacked(field, tenth),
{
    DosTimestamp { date: (field / 0x1_0000) as u16, time: (field % 0x1_0000) as u16, tenth }
}

/// Packing the words and unpacking the field gives the words back.
pub proof fn lemma_unpack_undoes_pack(stamp: DosTimestamp)
    ensures
        unpacked((stamp.date * 0x1_0000 + stamp.time) as u32, stamp.tenth) == stamp,
{
}

/// Minutes east of UTC an offset byte records, where it records any: a signed seven-bit count
/// of quarter hours.
pub open spec fn offset_minutes(byte: u8) -> Option<i32> {
    if byte < 0x80 {
        None
    } else if byte < 0xC0 {
        Some(((byte - 0x80) * 15) as i32)
    } else {
        Some(((byte - 0x100) * 15) as i32)
    }
}

/// Minutes east of UTC an offset byte records, or nothing where it records none.
#[must_use]
pub fn utc_offset_minutes(byte: u8) -> (minutes: Option<i32>)
    ensures
        minutes == offset_minutes(byte),
        minutes is Some ==> -960 <= minutes->Some_0 <= 945,
{
    if byte < UTC_OFFSET_VALID {
        return None;
    }
    let units: i32 = if byte < 0xC0 {
        byte as i32 - 0x80
    } else {
        byte as i32 - 0x100
    };
    Some(units * 15)
}

/// The words spell a day and a time exactly where the month is one of twelve, the day one its month
/// has in that year, and the time one of a day, in steps of two seconds and hundredths up to two
/// seconds.
pub proof fn lemma_which_words_are_on_the_calendar(stamp: DosTimestamp)
    ensures
        stamp.on_the_calendar() <==> {
            let year = 1980 + stamp.date as int / 512;
            let month = stamp.date as int / 32 % 16;
            let day = stamp.date as int % 32;
            &&& 1 <= month <= 12
            &&& 1 <= day
            &&& month == 2 ==> day <= (if year % 4 == 0 && (year % 100 != 0 || year % 400 == 0) {
                29int
            } else {
                28int
            })
            &&& month == 4 || month == 6 || month == 9 || month == 11 ==> day <= 30
            &&& stamp.time as int / 2048 < 24
            &&& stamp.time as int / 32 % 64 < 60
            &&& stamp.time as int % 32 < 30
            &&& stamp.tenth < 200
        },
{
}

} // verus!
