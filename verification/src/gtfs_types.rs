//! Plain records of a transit feed, and the days and hours that queries are keyed by.

use crate::coords::Coordinates;
use std::str::FromStr;
use vstd::prelude::*;
use vstd::std_specs::convert::{TryFromSpec, TryFromSpecImpl};
use vstd::string::*;

verus! {

/// A text that does not have the form that was asked for.
#[derive(Debug, PartialEq, Eq, Structural)]
pub struct ParseError;

/// One call of a trip at a stop.
#[derive(Debug)]
pub struct StopTrip {
    pub stop_id: String,
    pub trip_id: String,
    pub stop_sequence: u32,
    pub arrival_time: u32,
    pub departure_time: u32,
}

impl Default for StopTrip {
    fn default() -> (call: StopTrip)
        ensures
            call.stop_id@ == Seq::<char>::empty(),
            call.trip_id@ == Seq::<char>::empty(),
            call.stop_sequence == 0,
            call.arrival_time == 0,
            call.departure_time == 0,
    {
        StopTrip {
            stop_id: String::new(),
            trip_id: String::new(),
            stop_sequence: 0,
            arrival_time: 0,
            departure_time: 0,
        }
    }
}

/// The byte of the colon that parts the fields of a time.
pub const COLON: u8 = 58;

/// The byte of the plus sign that may stand before a number.
pub const PLUS: u8 = 43;

/// Whether a byte is a decimal digit.
pub open spec fn is_digit(byte: u8) -> bool {
    48 <= byte <= 57
}

/// Whether every byte of a run is a decimal digit.
pub open spec fn all_digits(digits: Seq<u8>) -> bool {
    forall|i: int| 0 <= i < digits.len() ==> is_digit(#[trigger] digits[i])
}

/// The number that a run of decimal digits stands for.
pub open spec fn digits_value(digits: Seq<u8>) -> nat
    decreases digits.len(),
{
    if digits.len() == 0 {
        0
    } else {
        digits_value(digits.drop_last()) * 10 + (digits.last() - 48) as nat
    }
}

/// The number that a field stands for: a plus sign or none, then one decimal digit or
/// more, in all a number of at most 4,294,967,295.
pub open spec fn field_value(field: Seq<u8>) -> Option<nat> {
    let digits = if field.len() > 0 && field[0] == 43 {
        field.subrange(1, field.len() as int)
    } else {
        field
    };
    if digits.len() > 0 && all_digits(digits) && digits_value(digits) <= 0xffff_ffff {
        Some(digits_value(digits))
    } else {
        None
    }
}

/// The length of the field that starts at `from`: the bytes up to the next colon, or
/// to the end where no colon follows.
pub open spec fn field_len(text: Seq<u8>, from: int) -> int
    decreases text.len() - from,
{
    if from >= text.len() || text[from] == 58 {
        0
    } else {
        1 + field_len(text, from + 1)
    }
}

/// The seconds that a time `H:M:S` stands for. The first two fields end at a colon;
/// what follows a colon after the third field is not read.
pub open spec fn time_value(text: Seq<u8>) -> Option<nat> {
    let hours_end = field_len(text, 0);
    let minutes_end = hours_end + 1 + field_len(text, hours_end + 1);
    let seconds_end = minutes_end + 1 + field_len(text, minutes_end + 1);
    if hours_end >= text.len() || minutes_end >= text.len() {
        None
    } else {
        match (
            field_value(text.subrange(0, hours_end)),
            field_value(text.subrange(hours_end + 1, minutes_end)),
            field_value(text.subrange(minutes_end + 1, seconds_end)),
        ) {
            (Some(hours), Some(minutes), Some(seconds)) => if hours * 3600 + minutes * 60
                + seconds <= 0xffff_ffff {
                Some(hours * 3600 + minutes * 60 + seconds)
            } else {
                None
            },
            _ => None,
        }
    }
}

proof fn lemma_field_len_found(text: Seq<u8>, from: int, end: int)
    requires
        0 <= from <= end <= text.len(),
        forall|i: int| from <= i < end ==> text[i] != 58,
        end == text.len() || text[end] == 58,
    ensures
        field_len(text, from) == end - from,
    decreases end - from,
{
    if from < end {
        lemma_field_len_found(text, from + 1, end);
    }
}

proof fn lemma_digits_grow(digits: Seq<u8>, more: Seq<u8>)
    requires
        forall|i: int| 0 <= i < more.len() ==> is_digit(#[trigger] more[i]),
    ensures
        digits_value(digits) <= digits_value(digits + more),
    decreases more.len(),
{
    if more.len() == 0 {
        assert(digits + more =~= digits);
    } else {
        lemma_digits_grow(digits, more.drop_last());
        assert((digits + more).drop_last() =~= digits + more.drop_last());
    }
}

/// Reads the field that starts at `from`: where it ends, and the number that it
/// stands for.
fn read_field(text: &[u8], from: usize) -> (r: (usize, Option<u32>))
    requires
        from <= text@.len(),
    ensures
        r.0 == from + field_len(text@, from as int),
        r.0 <= text@.len(),
        field_value(text@.subrange(from as int, r.0 as int)) == match r.1 {
            Some(value) => Some(value as nat),
            None => None,
        },
{
    let mut end: usize = from;
    while end < text.len() && text[end] != COLON
        invariant
            from <= end <= text@.len(),
            forall|i: int| from <= i < end ==> text@[i] != 58,
        decreases text@.len() - end,
    {
        end = end + 1;
    }
    proof {
        lemma_field_len_found(text@, from as int, end as int);
    }
    let ghost field = text@.subrange(from as int, end as int);
    let first: usize = if from < end && text[from] == PLUS {
        from + 1
    } else {
        from
    };
    let ghost digits = text@.subrange(first as int, end as int);
    proof {
        if from < end && text@[from as int] == 43 {
            assert(field[0] == 43);
            assert(field.subrange(1, field.len() as int) =~= digits);
        } else {
            if field.len() > 0 {
                assert(field[0] == text@[from as int]);
            }
            assert(field =~= digits);
        }
    }
    if first == end {
        return (end, None);
    }
    let mut value: u64 = 0;
    let mut i: usize = first;
    while i < end
        invariant
            from <= first <= i <= end <= text@.len(),
            end == from + field_len(text@, from as int),
            field == text@.subrange(from as int, end as int),
            digits == text@.subrange(first as int, end as int),
            digits == if field.len() > 0 && field[0] == 43 {
                field.subrange(1, field.len() as int)
            } else {
                field
            },
            forall|j: int| 0 <= j < i - first ==> is_digit(#[trigger] digits[j]),
            value == digits_value(digits.subrange(0, i - first)),
            value <= 0xffff_ffff,
        decreases end - i,
    {
        let byte: u8 = text[i];
        assert(byte == digits[i - first]);
        if byte < 48 || byte > 57 {
            assert(!is_digit(digits[i - first]));
            assert(!all_digits(digits));
            return (end, None);
        }
        let ghost before = digits.subrange(0, i - first);
        let ghost after = digits.subrange(0, i - first + 1);
        proof {
            assert(after.drop_last() =~= before);
            assert(after.last() == byte);
        }
        value = value * 10 + (byte - 48) as u64;
        if value > 0xffff_ffff {
            proof {
                let rest = digits.subrange(i - first + 1, digits.len() as int);
                if all_digits(digits) {
                    assert forall|j: int| 0 <= j < rest.len() implies is_digit(
                        #[trigger] rest[j],
                    ) by {
                        assert(rest[j] == digits[i - first + 1 + j]);
                    }
                    lemma_digits_grow(after, rest);
                    assert(after + rest =~= digits);
                    assert(digits_value(digits) > 0xffff_ffff);
                }
            }
            return (end, None);
        }
        i = i + 1;
    }
    proof {
        assert(digits.subrange(0, digits.len() as int) =~= digits);
        assert(all_digits(digits));
    }
    (end, Some(value as u32))
}

/// Reads a time of the form `H:M:S` as seconds. Each field is a decimal number,
/// before which a plus sign may stand; hours may exceed 23.
pub fn parse_time(string: &str) -> (r: Result<u32, ParseError>)
    ensures
        time_value(string.spec_bytes()) == match r {
            Ok(seconds) => Some(seconds as nat),
            Err(_) => None,
        },
{
    let text = string.as_bytes();
    let (hours_end, hours) = read_field(text, 0);
    if hours_end >= text.len() {
        return Err(ParseError);
    }
    let (minutes_end, minutes) = read_field(text, hours_end + 1);
    if minutes_end >= text.len() {
        return Err(ParseError);
    }
    let (seconds_end, seconds) = read_field(text, minutes_end + 1);
    match (hours, minutes, seconds) {
        (Some(h), Some(m), Some(s)) => {
            let total: u64 = h as u64 * 3600 + m as u64 * 60 + s as u64;
            if total <= 0xffff_ffff {
                Ok(total as u32)
            } else {
                Err(ParseError)
            }
        },
        _ => Err(ParseError),
    }
}

/// The location type of a stop record that is a physical boarding location.
pub const LOCATION_TYPE_STOP_POINT: u32 = 0;

/// A stop record of a feed.
#[derive(Debug)]
pub struct Stop {
    pub stop_id: String,
    pub stop_code: String,
    pub stop_name: String,
    pub stop_desc: String,
    pub coordinates: Coordinates,
    pub zone_id: String,
    pub stop_url: String,
    pub location_type: u32,
    pub parent_station: String,
    pub wheelchair_boarding: u32,
}

/// A day of the week.
#[derive(Hash, PartialEq, Eq, Structural, Clone, Copy, Debug)]
pub enum Day {
    Monday,
    Tuesday,
    Wednesday,
    Thursday,
    Friday,
    Saturday,
    Sunday,
}

/// The day that stands at a position of the week, Monday at position 0.
pub open spec fn day_at(position: int) -> Option<Day> {
    if position == 0 {
        Some(Day::Monday)
    } else if position == 1 {
        Some(Day::Tuesday)
    } else if position == 2 {
        Some(Day::Wednesday)
    } else if position == 3 {
        Some(Day::Thursday)
    } else if position == 4 {
        Some(Day::Friday)
    } else if position == 5 {
        Some(Day::Saturday)
    } else if position == 6 {
        Some(Day::Sunday)
    } else {
        None
    }
}

/// The day that a three-letter name stands for. Wednesday is spelled `Wen`.
pub open spec fn day_named(name: Seq<char>) -> Option<Day> {
    if name == seq!['M', 'o', 'n'] {
        Some(Day::Monday)
    } else if name == seq!['T', 'u', 'e'] {
        Some(Day::Tuesday)
    } else if name == seq!['W', 'e', 'n'] {
        Some(Day::Wednesday)
    } else if name == seq!['T', 'h', 'u'] {
        Some(Day::Thursday)
    } else if name == seq!['F', 'r', 'i'] {
        Some(Day::Friday)
    } else if name == seq!['S', 'a', 't'] {
        Some(Day::Saturday)
    } else if name == seq!['S', 'u', 'n'] {
        Some(Day::Sunday)
    } else {
        None
    }
}

impl Day {
    /// The position of the day in the week, Monday at 0 and Sunday at 6.
    pub open spec fn position(self) -> int {
        match self {
            Day::Monday => 0,
            Day::Tuesday => 1,
            Day::Wednesday => 2,
            Day::Thursday => 3,
            Day::Friday => 4,
            Day::Saturday => 5,
            Day::Sunday => 6,
        }
    }

    /// The two letters by which the day is shown, in Finnish.
    pub open spec fn label(self) -> Seq<char> {
        match self {
            Day::Monday => seq!['M', 'a'],
            Day::Tuesday => seq!['T', 'i'],
            Day::Wednesday => seq!['K', 'e'],
            Day::Thursday => seq!['T', 'o'],
            Day::Friday => seq!['P', 'e'],
            Day::Saturday => seq!['L', 'a'],
            Day::Sunday => seq!['S', 'u'],
        }
    }

    /// The position of the day in the week, Monday at 0 and Sunday at 6.
    pub fn number_days_from_monday(&self) -> (r: u8)
        ensures
            r == self.position(),
            day_at(r as int) == Some(*self),
    {
        match self {
            Day::Monday => 0,
            Day::Tuesday => 1,
            Day::Wednesday => 2,
            Day::Thursday => 3,
            Day::Friday => 4,
            Day::Saturday => 5,
            Day::Sunday => 6,
        }
    }

    /// The day as it is shown: two letters, in Finnish.
    pub fn to_string(&self) -> (r: String)
        ensures
            r@ == self.label(),
    {
        proof {
            reveal_strlit("Ma");
            reveal_strlit("Ti");
            reveal_strlit("Ke");
            reveal_strlit("To");
            reveal_strlit("Pe");
            reveal_strlit("La");
            reveal_strlit("Su");
        }
        let text = match self {
            Day::Monday => "Ma",
            Day::Tuesday => "Ti",
            Day::Wednesday => "Ke",
            Day::Thursday => "To",
            Day::Friday => "Pe",
            Day::Saturday => "La",
            Day::Sunday => "Su",
        };
        assert(text@ =~= self.label());
        text.to_owned()
    }
}

impl Default for Day {
    fn default() -> (r: Day)
        ensures
            r == Day::Monday,
    {
        Day::Monday
    }
}

impl FromStr for Day {
    type Err = ParseError;

    /// Reads a day from its three-letter English name.
    fn from_str(s: &str) -> (r: Result<Day, ParseError>)
        ensures
            r == match day_named(s@) {
                Some(day) => Ok::<Day, ParseError>(day),
                None => Err::<Day, ParseError>(ParseError),
            },
    {
        if !s.is_ascii() {
            return Err(ParseError);
        }
        let bytes = s.as_bytes();
        proof {
            is_ascii_spec_bytes(s);
            vstd::utf8::is_ascii_chars_nat_bound(s@);
        }
        if bytes.len() != 3 {
            return Err(ParseError);
        }
        let a: u8 = bytes[0];
        let b: u8 = bytes[1];
        let c: u8 = bytes[2];
        assert(s@.len() == 3);
        assert(a == s@[0] as u8 && b == s@[1] as u8 && c == s@[2] as u8);
        assert((s@[0] as nat) < 128 && (s@[1] as nat) < 128 && (s@[2] as nat) < 128);
        assert(s@ =~= seq![s@[0], s@[1], s@[2]]);
        if a == 77 && b == 111 && c == 110 {
            assert(s@ =~= seq!['M', 'o', 'n']);
            Ok(Day::Monday)
        } else if a == 84 && b == 117 && c == 101 {
            assert(s@ =~= seq!['T', 'u', 'e']);
            Ok(Day::Tuesday)
        } else if a == 87 && b == 101 && c == 110 {
            assert(s@ =~= seq!['W', 'e', 'n']);
            Ok(Day::Wednesday)
        } else if a == 84 && b == 104 && c == 117 {
            assert(s@ =~= seq!['T', 'h', 'u']);
            Ok(Day::Thursday)
        } else if a == 70 && b == 114 && c == 105 {
            assert(s@ =~= seq!['F', 'r', 'i']);
            Ok(Day::Friday)
        } else if a == 83 && b == 97 && c == 116 {
            assert(s@ =~= seq!['S', 'a', 't']);
            Ok(Day::Saturday)
        } else if a == 83 && b == 117 && c == 110 {
            assert(s@ =~= seq!['S', 'u', 'n']);
            Ok(Day::Sunday)
        } else {
            Err(ParseError)
        }
    }
}

/// A number that is no position of the week.
#[derive(Debug, PartialEq, Eq, Structural)]
pub struct IntOutOfBounds;

impl TryFrom<u8> for Day {
    type Error = IntOutOfBounds;

    /// The day at a position of the week, Monday at 0.
    fn try_from(value: u8) -> (r: Result<Day, IntOutOfBounds>) {
        match value {
            0 => Ok(Day::Monday),
            1 => Ok(Day::Tuesday),
            2 => Ok(Day::Wednesday),
            3 => Ok(Day::Thursday),
            4 => Ok(Day::Friday),
            5 => Ok(Day::Saturday),
            6 => Ok(Day::Sunday),
            _ => Err(IntOutOfBounds),
        }
    }
}

impl TryFromSpecImpl<u8> for Day {
    open spec fn obeys_try_from_spec() -> bool {
        true
    }

    open spec fn try_from_spec(value: u8) -> Result<Day, IntOutOfBounds> {
        match day_at(value as int) {
            Some(day) => Ok(day),
            None => Err(IntOutOfBounds),
        }
    }
}

/// An hour count beyond the end of the day.
#[derive(Debug, PartialEq, Eq, Structural)]
pub struct OverflowError;

/// An hour of the day, from 0 to 24.
#[derive(Hash, PartialEq, Eq, Structural, Clone, Copy, Debug)]
pub struct Hour(u8);

impl View for Hour {
    type V = nat;

    closed spec fn view(&self) -> nat {
        self.0 as nat
    }
}

/// The decimal digit that shows a number below ten.
pub open spec fn digit_char(n: int) -> char {
    if n == 0 {
        '0'
    } else if n == 1 {
        '1'
    } else if n == 2 {
        '2'
    } else if n == 3 {
        '3'
    } else if n == 4 {
        '4'
    } else if n == 5 {
        '5'
    } else if n == 6 {
        '6'
    } else if n == 7 {
        '7'
    } else if n == 8 {
        '8'
    } else {
        '9'
    }
}

/// A number below one hundred, shown with two decimal digits.
pub open spec fn two_digits(n: int) -> Seq<char> {
    seq![digit_char(n / 10), digit_char(n % 10)]
}

impl Hour {
    /// Hours are at most 24.
    #[verifier::type_invariant]
    pub closed spec fn wf(self) -> bool {
        self.0 <= 24
    }

    /// The seconds from midnight to the start of the hour.
    pub fn as_seconds(&self) -> (r: u32)
        ensures
            r == self@ * 3600,
            r <= 86_400,
    {
        proof {
            use_type_invariant(self);
        }
        let hours: u32 = self.0 as u32;
        hours * 3600
    }

    /// The start of the hour as a time of day, `HH:00:00`.
    pub fn to_string(&self) -> (r: String)
        ensures
            r@ == two_digits(self@ as int) + seq![':', '0', '0', ':', '0', '0'],
    {
        proof {
            use_type_invariant(self);
        }
        let mut text = String::new();
        push_two_digits(&mut text, self.0 as u32);
        proof {
            reveal_strlit(":00:00");
        }
        text.append(":00:00");
        assert(text@ =~= two_digits(self@ as int) + seq![':', '0', '0', ':', '0', '0']);
        text
    }
}

impl Default for Hour {
    fn default() -> (r: Hour)
        ensures
            r@ == 0,
    {
        Hour(0)
    }
}

impl TryFrom<u32> for Hour {
    type Error = OverflowError;

    /// The hour with the given number, which is at most 24.
    fn try_from(value: u32) -> (r: Result<Hour, OverflowError>) {
        if value > 24 {
            Err(OverflowError)
        } else {
            Ok(Hour(value as u8))
        }
    }
}

impl TryFromSpecImpl<u32> for Hour {
    open spec fn obeys_try_from_spec() -> bool {
        true
    }

    closed spec fn try_from_spec(value: u32) -> Result<Hour, OverflowError> {
        if value > 24 {
            Err(OverflowError)
        } else {
            Ok(Hour(value as u8))
        }
    }
}

/// What converting a number to an hour gives: an error above 24, else the hour of that number.
pub proof fn lemma_hour_try_from(value: u32)
    ensures
        value > 24 ==> <Hour as TryFromSpec<u32>>::try_from_spec(value) == Err::<
            Hour,
            OverflowError,
        >(OverflowError),
        value <= 24 ==> {
            let r = <Hour as TryFromSpec<u32>>::try_from_spec(value);
            r.is_ok() && r.unwrap()@ == value
        },
{
}

/// A day of the week and an hour of that day.
#[derive(Hash, PartialEq, Eq, Structural, Clone, Copy, Debug)]
pub struct DayTime {
    pub day: Day,
    pub time: Hour,
}

impl Default for DayTime {
    fn default() -> (r: DayTime)
        ensures
            r.day == Day::Monday,
            r.time@ == 0,
    {
        DayTime { day: Day::Monday, time: Hour(0) }
    }
}

/// The text of one decimal digit.
fn digit_text(n: u32) -> (r: &'static str)
    requires
        n < 10,
    ensures
        r@ == seq![digit_char(n as int)],
{
    proof {
        reveal_strlit("0");
        reveal_strlit("1");
        reveal_strlit("2");
        reveal_strlit("3");
        reveal_strlit("4");
        reveal_strlit("5");
        reveal_strlit("6");
        reveal_strlit("7");
        reveal_strlit("8");
        reveal_strlit("9");
    }
    let text = match n {
        0 => "0",
        1 => "1",
        2 => "2",
        3 => "3",
        4 => "4",
        5 => "5",
        6 => "6",
        7 => "7",
        8 => "8",
        _ => "9",
    };
    assert(text@ =~= seq![digit_char(n as int)]);
    text
}

/// Appends a number below one hundred as two decimal digits.
fn push_two_digits(text: &mut String, n: u32)
    requires
        n < 100,
    ensures
        final(text)@ == old(text)@ + two_digits(n as int),
{
    text.append(digit_text(n / 10));
    text.append(digit_text(n % 10));
    assert(text@ =~= old(text)@ + two_digits(n as int));
}

/// The text `HH:MM:SS` of a count of seconds: minutes and seconds as on a clock,
/// and the hours taken modulo 60.
pub open spec fn hhmmss(timestamp: int) -> Seq<char> {
    two_digits(timestamp / 3600 % 60) + seq![':'] + two_digits(timestamp / 60 % 60) + seq![':']
        + two_digits(timestamp % 60)
}

/// Shows a count of seconds as `HH:MM:SS`.
pub fn seconds_to_hhmmss(timestamp: u32) -> (r: String)
    ensures
        r@ == hhmmss(timestamp as int),
{
    proof {
        reveal_strlit(":");
    }
    let mut text = String::new();
    push_two_digits(&mut text, timestamp / 3600 % 60);
    text.append(":");
    push_two_digits(&mut text, timestamp / 60 % 60);
    text.append(":");
    push_two_digits(&mut text, timestamp % 60);
    assert(text@ =~= hhmmss(timestamp as int));
    text
}

} // verus!
