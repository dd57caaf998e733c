//! Identifiers of sealed memtables and sealed journals.
//!
//! An identifier is made of the wall-clock time at which it was generated and
//! of a random number, each written in base 36, so that identifiers sort
//! roughly by the time of their creation.

use vstd::prelude::*;

verus! {

pub const BASE_36_RADIX: u32 = 36;

/// The character that stands for the digit `d` in base 36: `0` to `9`, then `a` to `z`.
pub open spec fn base36_digit(d: nat) -> char {
    if d < 10 {
        (('0' as u8) + d) as u8 as char
    } else {
        (('a' as u8) + d - 10) as u8 as char
    }
}

/// The base-36 numeral of `x`, most significant digit first, without leading zeros.
pub open spec fn base36(x: nat) -> Seq<char>
    decreases x,
{
    if x < 36 {
        seq![base36_digit(x)]
    } else {
        base36(x / 36).push(base36_digit(x % 36))
    }
}

/// The fields of a point in time that an identifier is made of.
#[derive(Clone, Copy, Debug, PartialEq, Eq)]
pub struct Timestamp {
    pub month: u32,
    pub day: u32,
    pub hour: u32,
    pub minute: u32,
    pub nanos: u32,
}

impl Timestamp {
    /// Holds of the fields of any calendar date and time of day; within a leap
    /// second the nanoseconds run on past one thousand million.
    pub open spec fn is_calendar(&self) -> bool {
        &&& 1 <= self.month <= 12
        &&& 1 <= self.day <= 31
        &&& self.hour < 24
        &&& self.minute < 60
        &&& self.nanos < 2_000_000_000
    }
}

/// The identifier made of the time `t` and the number `random`:
/// month and day, hour and minute, nanoseconds, random number, joined by underscores.
pub open spec fn segment_id(t: Timestamp, random: u32) -> Seq<char> {
    base36(t.month as nat) + base36(t.day as nat) + seq!['_'] + base36(t.hour as nat) + base36(
        t.minute as nat,
    ) + seq!['_'] + base36(t.nanos as nat) + seq!['_'] + base36(random as nat)
}

/// `String::push` appends one character to the string.
pub assume_specification[ String::push ](s: &mut String, ch: char)
    ensures
        final(s)@ == old(s)@.push(ch),
;

/// Reads the clock with `chrono::Utc::now` and hands out the month, the day of
/// the month, the hour, the minute and the nanoseconds since the last full
/// second of that moment. The contract gives the ranges that chrono documents
/// for these five accessors. `Utc::now` itself panics on a machine whose
/// clock is set before 1970.
#[verifier::external_body]
fn utc_now() -> (t: Timestamp)
    ensures
        t.is_calendar(),
{
    let now = chrono::Utc::now();
    Timestamp {
        month: chrono::Datelike::month(&now),
        day: chrono::Datelike::day(&now),
        hour: chrono::Timelike::hour(&now),
        minute: chrono::Timelike::minute(&now),
        nanos: now.timestamp_subsec_nanos(),
    }
}

/// Draws a number from the thread-local generator of `rand`
/// (`rand::thread_rng` and `Rng::gen`). Nothing is known of the number. The
/// call panics only if the generator of the operating system fails, when the
/// thread's generator is first made or when it is seeded anew.
#[verifier::external_body]
fn random_u32() -> u32 {
    rand::Rng::gen::<u32>(&mut rand::thread_rng())
}

fn digit_char(d: u32) -> (c: char)
    requires
        d < 36,
    ensures
        c == base36_digit(d as nat),
{
    if d < 10 {
        (48u8 + d as u8) as char
    } else {
        (97u8 + (d - 10) as u8) as char
    }
}

/// Writes `x` in base 36.
pub fn to_base36(x: u32) -> (result: String)
    ensures
        result@ == base36(x as nat),
{
    let mut digits: Vec<char> = Vec::new();
    let mut rest: u32 = x;
    loop
        invariant_except_break
            base36(x as nat) == base36(rest as nat) + digits@.reverse(),
        ensures
            base36(x as nat) == digits@.reverse(),
        decreases rest,
    {
        let m: u32 = rest % BASE_36_RADIX;
        let ghost before = digits@;
        let ghost prev = rest;
        rest = rest / BASE_36_RADIX;
        digits.push(digit_char(m));
        proof {
            let d = base36_digit(m as nat);
            assert(digits@.reverse() =~= seq![d] + before.reverse());
            if prev < 36 {
                assert(base36(prev as nat) + before.reverse() =~= digits@.reverse());
            } else {
                assert(base36(rest as nat).push(d) + before.reverse() =~= base36(rest as nat)
                    + digits@.reverse());
            }
        }
        if rest == 0 {
            break ;
        }
    }
    let mut result = String::new();
    let mut i: usize = digits.len();
    while i > 0
        invariant
            i <= digits.len(),
            result@ == digits@.reverse().subrange(0, digits.len() - i),
        decreases i,
    {
        i = i - 1;
        result.push(digits[i]);
        assert(result@ =~= digits@.reverse().subrange(0, digits.len() - i));
    }
    assert(result@ =~= digits@.reverse());
    result
}

/// Writes the identifier that belongs to the time `t` and the number `random`.
pub fn segment_id_from(t: &Timestamp, random: u32) -> (id: String)
    ensures
        id@ == segment_id(*t, random),
{
    let mut id = to_base36(t.month);
    id.append(to_base36(t.day).as_str());
    id.push('_');
    id.append(to_base36(t.hour).as_str());
    id.append(to_base36(t.minute).as_str());
    id.push('_');
    id.append(to_base36(t.nanos).as_str());
    id.push('_');
    id.append(to_base36(random).as_str());
    assert(id@ =~= segment_id(*t, random));
    id
}

/// Generates an identifier from the current time and a random number.
///
/// Which identifier comes out depends on the clock and on chance; it is the
/// identifier of some calendar time and some number.
pub fn generate_segment_id() -> (id: String)
    ensures
        exists|t: Timestamp, random: u32| t.is_calendar() && id@ == #[trigger] segment_id(t, random),
{
    let now = utc_now();
    let random: u32 = random_u32();
    segment_id_from(&now, random)
}

} // verus!
