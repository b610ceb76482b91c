//! Service days and the arithmetic of dates and instants.
//!
//! A date is a Julian day number, an instant a count of seconds since
//! 1970-01-01T00:00:00Z, and a time of day a count of seconds since the midnight
//! at which its service day starts.

use crate::gtfs_types::Day;
use vstd::prelude::*;
use vstd::std_specs::convert::{FromSpec, FromSpecImpl};

verus! {

/// The length of a day in seconds.
pub const SECONDS_IN_DAY: u32 = 86_400;

/// The Julian day number of 1970-01-01.
pub const UNIX_EPOCH_JULIAN_DAY: i64 = 2_440_588;

/// The dates that the arithmetic supports lie within this many days of Julian day 0.
pub const MAX_JULIAN_DAY: i64 = 50_000_000_000_000;

/// The instants that the arithmetic supports lie within this many seconds of the epoch.
pub const MAX_INSTANT: i64 = 4_000_000_000_000_000_000;

/// The position in the week of a date, Monday at 0: Julian day 0 is a Monday.
pub open spec fn weekday_of(date: int) -> int {
    date % 7
}

/// The date on which an instant falls.
pub open spec fn date_of(instant: int) -> int {
    instant / 86_400 + 2_440_588
}

/// The instant that lies `time` seconds after the midnight that starts `date`.
pub open spec fn datetime_of(time: int, date: int) -> int {
    (date - 2_440_588) * 86_400 + time
}

/// Whether a date is one that the arithmetic supports.
pub open spec fn date_in_range(date: int) -> bool {
    -50_000_000_000_000 <= date <= 50_000_000_000_000
}

/// Whether an instant is one that the arithmetic supports.
pub open spec fn instant_in_range(instant: int) -> bool {
    -4_000_000_000_000_000_000 <= instant <= 4_000_000_000_000_000_000
}

/// Whether a week of seven flags, Monday first, has the weekday of a date set.
pub open spec fn runs_on(days: Seq<bool>, date: int) -> bool {
    days[weekday_of(date)]
}

/// Whether a week of seven flags has no day set.
pub open spec fn no_day(days: Seq<bool>) -> bool {
    forall|i: int| 0 <= i < 7 ==> !days[i]
}

/// The first date from `date` on, looking at most `limit` days ahead, whose weekday is set.
pub open spec fn first_run(days: Seq<bool>, date: int, limit: nat) -> int
    decreases limit,
{
    if limit == 0 || runs_on(days, date) {
        date
    } else {
        first_run(days, date + 1, (limit - 1) as nat)
    }
}

/// The earliest date that is not before `date` and whose weekday is set.
pub open spec fn next_valid_date(days: Seq<bool>, date: int) -> int {
    first_run(days, date, 6)
}

/// `first_run` stays within its limit and skips only dates whose weekday is not set.
pub proof fn lemma_first_run(days: Seq<bool>, date: int, limit: nat)
    ensures
        date <= first_run(days, date, limit) <= date + limit,
        forall|d: int| date <= d < first_run(days, date, limit) ==> !runs_on(days, d),
        first_run(days, date, limit) < date + limit ==> runs_on(
            days,
            first_run(days, date, limit),
        ),
    decreases limit,
{
    if limit == 0 || runs_on(days, date) {
    } else {
        lemma_first_run(days, date + 1, (limit - 1) as nat);
    }
}

/// Where some day of the week is set, the next valid date is at most six days ahead,
/// its weekday is set, and no date between has its weekday set.
pub proof fn lemma_next_valid_date(days: Seq<bool>, date: int)
    requires
        days.len() == 7,
        !no_day(days),
    ensures
        date <= next_valid_date(days, date) <= date + 6,
        runs_on(days, next_valid_date(days, date)),
        forall|d: int| date <= d < next_valid_date(days, date) ==> !runs_on(days, d),
{
    lemma_first_run(days, date, 6);
    let r = next_valid_date(days, date);
    if !runs_on(days, r) {
        assert(r == date + 6);
        let w = choose|i: int| 0 <= i < 7 && days[i];
        let k = (w - date % 7 + 7) % 7;
        assert((date + k) % 7 == w);
        assert(runs_on(days, date + k));
    }
}

/// Any date that is not before `date` and whose weekday is set is not before the next
/// valid date.
pub proof fn lemma_next_valid_date_least(days: Seq<bool>, date: int, other: int)
    requires
        days.len() == 7,
        date <= other,
        runs_on(days, other),
    ensures
        next_valid_date(days, date) <= other,
        runs_on(days, next_valid_date(days, date)),
{
    assert(!no_day(days)) by {
        assert(days[weekday_of(other)]);
    }
    lemma_next_valid_date(days, date);
}

/// The quotient of a division by a positive number, rounded down.
pub fn div_floor(a: i64, b: i64) -> (q: i64)
    requires
        b > 0,
    ensures
        q == a / b,
{
    if a >= 0 {
        a / b
    } else {
        let m: i64 = -(a + 1);
        proof {
            assert(a / b == -(m / b) - 1) by (nonlinear_arith)
                requires
                    b > 0,
                    a < 0,
                    m == -(a + 1),
            ;
        }
        -(m / b) - 1
    }
}

/// The position in the week of a date, Monday at 0.
pub fn weekday(date: i64) -> (w: u8)
    ensures
        w == weekday_of(date as int),
        w < 7,
{
    if date >= 0 {
        (date % 7) as u8
    } else {
        let m: i64 = -(date + 1);
        proof {
            assert(date as int % 7 == 6 - m % 7) by (nonlinear_arith)
                requires
                    date < 0,
                    m == -(date + 1),
            ;
        }
        (6 - m % 7) as u8
    }
}

/// The date on which an instant falls.
pub fn date_of_instant(instant: i64) -> (date: i64)
    ensures
        date == date_of(instant as int),
        instant_in_range(instant as int) ==> -49_999_999_000_000 <= date <= 49_999_999_000_000,
{
    let q: i64 = div_floor(instant, 86_400);
    q + UNIX_EPOCH_JULIAN_DAY
}

/// A set of days of the week, kept as one bit per day with Monday lowest.
#[derive(Clone, Copy, Debug)]
pub struct ValidDays {
    mask: u8,
}

spec fn bit(mask: u8, i: int) -> bool {
    (mask >> (i as u8)) & 1u8 == 1u8
}

proof fn lemma_set_bit(mask: u8, i: u8, j: u8)
    requires
        i < 7,
        j < 7,
    ensures
        bit(mask | (1u8 << i), j as int) == (i == j || bit(mask, j as int)),
        bit(mask & !(1u8 << i), j as int) == (i != j && bit(mask, j as int)),
{
    assert(((mask | (1u8 << i)) >> j) & 1u8 == 1u8 <==> (i == j || (mask >> j) & 1u8 == 1u8))
        by (bit_vector)
        requires
            i < 7,
            j < 7,
    ;
    assert(((mask & !(1u8 << i)) >> j) & 1u8 == 1u8 <==> (i != j && (mask >> j) & 1u8 == 1u8))
        by (bit_vector)
        requires
            i < 7,
            j < 7,
    ;
}

proof fn lemma_no_bit(mask: u8)
    ensures
        (mask & 127u8 == 0u8) <==> (forall|i: int| 0 <= i < 7 ==> !bit(mask, i)),
{
    assert((mask & 127u8 == 0u8) <==> ((mask >> 0u8) & 1u8 != 1u8 && (mask >> 1u8) & 1u8 != 1u8
        && (mask >> 2u8) & 1u8 != 1u8 && (mask >> 3u8) & 1u8 != 1u8 && (mask >> 4u8) & 1u8 != 1u8
        && (mask >> 5u8) & 1u8 != 1u8 && (mask >> 6u8) & 1u8 != 1u8)) by (bit_vector);
    if mask & 127u8 == 0u8 {
        assert forall|i: int| 0 <= i < 7 implies !bit(mask, i) by {
            if i == 0 {
            } else if i == 1 {
            } else if i == 2 {
            } else if i == 3 {
            } else if i == 4 {
            } else if i == 5 {
            } else {
                assert(i == 6);
            }
        }
    } else {
        if forall|i: int| 0 <= i < 7 ==> !bit(mask, i) {
            assert(!bit(mask, 0) && !bit(mask, 1) && !bit(mask, 2) && !bit(mask, 3) && !bit(
                mask,
                4,
            ) && !bit(mask, 5) && !bit(mask, 6));
        }
    }
}

impl View for ValidDays {
    type V = Seq<bool>;

    /// The seven flags of the week, Monday first.
    closed spec fn view(&self) -> Seq<bool> {
        Seq::new(7, |i: int| bit(self.mask, i))
    }
}

impl ValidDays {
    /// The view is a week: it has seven flags.
    pub broadcast proof fn lemma_week(self)
        ensures
            (#[trigger] self@).len() == 7,
    {
    }

    /// The set with no day in it.
    pub fn none() -> (days: ValidDays)
        ensures
            days@ == Seq::new(7, |i: int| false),
    {
        let days = ValidDays { mask: 0 };
        proof {
            lemma_no_bit(0u8);
            assert(0u8 & 127u8 == 0u8) by (bit_vector);
            assert(days@ =~= Seq::new(7, |i: int| false));
        }
        days
    }

    /// Whether the weekday at a position of the week, Monday at 0, is in the set.
    pub fn contains(&self, weekday: u8) -> (r: bool)
        requires
            weekday < 7,
        ensures
            r == self@[weekday as int],
    {
        (self.mask >> weekday) & 1 == 1
    }

    /// Whether a day of the week is in the set.
    pub fn is_valid(&self, day: Day) -> (r: bool)
        ensures
            r == self@[day.position()],
    {
        self.contains(day.number_days_from_monday())
    }

    /// Whether no day is in the set.
    pub fn is_empty(&self) -> (r: bool)
        ensures
            r == no_day(self@),
    {
        proof {
            lemma_no_bit(self.mask);
            if no_day(self@) {
                assert forall|i: int| 0 <= i < 7 implies !bit(self.mask, i) by {
                    assert(!self@[i]);
                }
            }
        }
        self.mask & 127 == 0
    }

    /// Puts a day into the set, or takes it out.
    pub fn set(&mut self, day: Day, is_valid: bool)
        ensures
            final(self)@ == old(self)@.update(day.position(), is_valid),
    {
        let i: u8 = day.number_days_from_monday();
        let ghost before = self.mask;
        if is_valid {
            self.mask = self.mask | (1u8 << i);
        } else {
            self.mask = self.mask & !(1u8 << i);
        }
        proof {
            assert forall|j: int| 0 <= j < 7 implies self@[j] == old(self)@.update(
                day.position(),
                is_valid,
            )[j] by {
                lemma_set_bit(before, i, j as u8);
            }
            assert(self@ =~= old(self)@.update(day.position(), is_valid));
        }
    }

    /// Whether the weekday of a date is in the set.
    pub fn runs_on(&self, date: i64) -> (r: bool)
        ensures
            r == runs_on(self@, date as int),
    {
        self.contains(weekday(date))
    }

    /// The earliest date that is not before `date` and whose weekday is in the set.
    pub fn next_valid(&self, date: i64) -> (next: i64)
        requires
            !no_day(self@),
            date_in_range(date as int + 6),
            date_in_range(date as int),
        ensures
            next == next_valid_date(self@, date as int),
            date <= next <= date + 6,
            runs_on(self@, next as int),
            forall|d: int| date <= d < next ==> !runs_on(self@, d),
    {
        proof {
            lemma_next_valid_date(self@, date as int);
        }
        let ghost target = next_valid_date(self@, date as int);
        let mut offset: i64 = 0;
        while offset < 6
            invariant
                0 <= offset <= 6,
                date_in_range(date as int + 6),
                date_in_range(date as int),
                date + offset <= target <= date + 6,
                target == next_valid_date(self@, date as int),
                runs_on(self@, target),
                forall|d: int| date <= d < target ==> !runs_on(self@, d),
            decreases 6 - offset,
        {
            if self.runs_on(date + offset) {
                return date + offset;
            }
            offset = offset + 1;
        }
        date + offset
    }
}

spec fn week_mask(value: Seq<bool>) -> u8 {
    let b0: u8 = if value[0] { 1 } else { 0 };
    let b1: u8 = if value[1] { 2 } else { 0 };
    let b2: u8 = if value[2] { 4 } else { 0 };
    let b3: u8 = if value[3] { 8 } else { 0 };
    let b4: u8 = if value[4] { 16 } else { 0 };
    let b5: u8 = if value[5] { 32 } else { 0 };
    let b6: u8 = if value[6] { 64 } else { 0 };
    b0 | b1 | b2 | b3 | b4 | b5 | b6
}

proof fn lemma_week_mask(value: Seq<bool>)
    ensures
        forall|i: int| 0 <= i < 7 ==> bit(week_mask(value), i) == value[i],
{
    let b0: u8 = if value[0] { 1 } else { 0 };
    let b1: u8 = if value[1] { 2 } else { 0 };
    let b2: u8 = if value[2] { 4 } else { 0 };
    let b3: u8 = if value[3] { 8 } else { 0 };
    let b4: u8 = if value[4] { 16 } else { 0 };
    let b5: u8 = if value[5] { 32 } else { 0 };
    let b6: u8 = if value[6] { 64 } else { 0 };
    let mask: u8 = b0 | b1 | b2 | b3 | b4 | b5 | b6;
    assert(((mask >> 0u8) & 1u8 == 1u8 <==> b0 == 1) && ((mask >> 1u8) & 1u8 == 1u8 <==> b1 == 2)
        && ((mask >> 2u8) & 1u8 == 1u8 <==> b2 == 4) && ((mask >> 3u8) & 1u8 == 1u8 <==> b3 == 8)
        && ((mask >> 4u8) & 1u8 == 1u8 <==> b4 == 16) && ((mask >> 5u8) & 1u8 == 1u8 <==> b5
        == 32) && ((mask >> 6u8) & 1u8 == 1u8 <==> b6 == 64)) by (bit_vector)
        requires
            mask == b0 | b1 | b2 | b3 | b4 | b5 | b6,
            b0 == 0 || b0 == 1,
            b1 == 0 || b1 == 2,
            b2 == 0 || b2 == 4,
            b3 == 0 || b3 == 8,
            b4 == 0 || b4 == 16,
            b5 == 0 || b5 == 32,
            b6 == 0 || b6 == 64,
    ;
    assert forall|i: int| 0 <= i < 7 implies bit(week_mask(value), i) == value[i] by {
        if i == 0 {
        } else if i == 1 {
        } else if i == 2 {
        } else if i == 3 {
        } else if i == 4 {
        } else if i == 5 {
        } else {
            assert(i == 6);
        }
    }
}

impl From<[bool; 7]> for ValidDays {
    /// The set of the days whose flag is set, Monday first.
    fn from(value: [bool; 7]) -> (days: ValidDays) {
        let b0: u8 = if value[0] { 1 } else { 0 };
        let b1: u8 = if value[1] { 2 } else { 0 };
        let b2: u8 = if value[2] { 4 } else { 0 };
        let b3: u8 = if value[3] { 8 } else { 0 };
        let b4: u8 = if value[4] { 16 } else { 0 };
        let b5: u8 = if value[5] { 32 } else { 0 };
        let b6: u8 = if value[6] { 64 } else { 0 };
        ValidDays { mask: b0 | b1 | b2 | b3 | b4 | b5 | b6 }
    }
}

impl FromSpecImpl<[bool; 7]> for ValidDays {
    open spec fn obeys_from_spec() -> bool {
        true
    }

    closed spec fn from_spec(value: [bool; 7]) -> ValidDays {
        ValidDays { mask: week_mask(value@) }
    }
}

/// The set made from seven flags has exactly the days whose flag is set.
pub proof fn lemma_from_week(value: [bool; 7])
    ensures
        <ValidDays as FromSpec<[bool; 7]>>::from_spec(value)@ == value@,
{
    lemma_week_mask(value@);
    assert(<ValidDays as FromSpec<[bool; 7]>>::from_spec(value)@ =~= value@);
}

impl From<ValidDays> for [bool; 7] {
    /// The seven flags of the set, Monday first.
    fn from(value: ValidDays) -> (week: [bool; 7]) {
        [
            value.contains(0),
            value.contains(1),
            value.contains(2),
            value.contains(3),
            value.contains(4),
            value.contains(5),
            value.contains(6),
        ]
    }
}

impl FromSpecImpl<ValidDays> for [bool; 7] {
    open spec fn obeys_from_spec() -> bool {
        true
    }

    closed spec fn from_spec(value: ValidDays) -> [bool; 7] {
        [
            value@[0],
            value@[1],
            value@[2],
            value@[3],
            value@[4],
            value@[5],
            value@[6],
        ]
    }
}

/// The seven flags made from a set are those of the set.
pub proof fn lemma_to_week(value: ValidDays)
    ensures
        <[bool; 7] as FromSpec<ValidDays>>::from_spec(value)@ == value@,
{
    assert(<[bool; 7] as FromSpec<ValidDays>>::from_spec(value)@ =~= value@);
}

} // verus!
