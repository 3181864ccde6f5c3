//! Text of numbers and of local times, as the verbose listing shows them.

use vstd::prelude::*;

verus! {

/// The character of a decimal digit.
pub open spec fn digit(d: nat) -> char {
    (d + 48) as char
}

/// The decimal digits of `n`, without leading zeros.
pub open spec fn decimal(n: nat) -> Seq<char>
    decreases n,
{
    if n < 10 {
        seq![digit(n)]
    } else {
        decimal(n / 10) + seq![digit(n % 10)]
    }
}

/// The decimal digits of `n`, with leading zeros up to `width` characters.
pub open spec fn padded(n: nat, width: nat) -> Seq<char> {
    let zeros: nat = if width > decimal(n).len() {
        (width - decimal(n).len()) as nat
    } else {
        0
    };
    Seq::new(zeros, |i: int| '0') + decimal(n)
}

/// Milliseconds in a day.
pub open spec fn day_ms() -> int {
    86400000
}

/// Milliseconds in 400 Gregorian years, the length of a calendar cycle.
pub open spec fn cycle_ms() -> int {
    146097int * 86400000int
}

/// Year, month and day of day `z`, counted from 0000-03-01 of the proleptic
/// Gregorian calendar, `z >= 0`.
pub open spec fn civil(z: int) -> (int, int, int) {
    let era = z / 146097;
    let doe = z % 146097;
    let yoe = (doe - doe / 1460 + doe / 36524 - doe / 146096) / 365;
    let doy = doe - (365 * yoe + yoe / 4 - yoe / 100);
    let mp = (5 * doy + 2) / 153;
    let d = doy - (153 * mp + 2) / 5 + 1;
    let m = if mp < 10 {
        mp + 3
    } else {
        mp - 9
    };
    (yoe + era * 400 + if m <= 2 {
        1int
    } else {
        0int
    }, m, d)
}

/// `YYYY-MM-DD HH:MM:SS.SSS` of the instant `local` milliseconds after
/// 1970-01-01 00:00:00.000, for `local` no earlier than one calendar cycle
/// before it. The count is shifted by one cycle, which leaves the date's month,
/// day and time as they are and adds 400 to its year.
pub open spec fn time_text(local: int) -> Seq<char> {
    let t = local + cycle_ms();
    let rem = t % day_ms();
    let ymd = civil(t / day_ms() + 719468);
    padded((ymd.0 - 400) as nat, 4) + seq!['-'] + padded(ymd.1 as nat, 2) + seq!['-'] + padded(
        ymd.2 as nat,
        2,
    ) + seq![' '] + padded((rem / 3600000) as nat, 2) + seq![':'] + padded(
        (rem / 60000 % 60) as nat,
        2,
    ) + seq![':'] + padded((rem / 1000 % 60) as nat, 2) + seq!['.'] + padded((rem % 1000) as nat, 3)
}

/// The local instant of `utc_ms` milliseconds after the epoch, in a zone
/// `offset_seconds` ahead of UTC.
pub open spec fn local_ms(utc_ms: u64, offset_seconds: i32) -> int {
    utc_ms + offset_seconds * 1000
}

/// Relies on std's `ToString` for `u64` (through `Display`): its decimal digits
/// without leading zeros.
#[verifier::external_body]
pub(crate) fn decimal_text(n: u64) -> (r: String)
    ensures
        r@ == decimal(n as nat),
{
    n.to_string()
}

/// The decimal digits of `n` with leading zeros up to `width` characters.
pub fn padded_text(n: u64, width: usize) -> (r: String)
    ensures
        r@ == padded(n as nat, width as nat),
{
    let digits = decimal_text(n);
    let len = digits.as_str().unicode_len();
    let mut r = String::new();
    let mut k: usize = len;
    while k < width
        invariant
            len == decimal(n as nat).len(),
            len <= k,
            k == len || k <= width,
            r@ == Seq::new((k - len) as nat, |i: int| '0'),
        decreases width - k,
    {
        r.append("0");
        proof {
            reveal_strlit("0");
        }
        assert(r@ =~= Seq::new((k + 1 - len) as nat, |i: int| '0'));
        k = k + 1;
    }
    assert(r@ =~= Seq::new(
        if width > len {
            (width - len) as nat
        } else {
            0
        },
        |i: int| '0',
    ));
    r.append(digits.as_str());
    r
}

/// Year, month and day of day `z` counted from 0000-03-01.
fn civil_exec(z: u64) -> (r: (u64, u64, u64))
    requires
        719468 <= z,
    ensures
        r.0 == civil(z as int).0,
        r.1 == civil(z as int).1,
        r.2 == civil(z as int).2,
        r.0 >= 1600,
{
    let era = z / 146097;
    let doe = z % 146097;
    assert(era >= 4) by (nonlinear_arith)
        requires
            719468 <= z,
            era == z / 146097,
    ;
    let yoe = (doe + doe / 36524 - doe / 1460 - doe / 146096) / 365;
    assert(yoe <= 400);
    let doy = doe - (365 * yoe + yoe / 4 - yoe / 100);
    let mp = (5 * doy + 2) / 153;
    let d = doy - (153 * mp + 2) / 5 + 1;
    let m = if mp < 10 {
        mp + 3
    } else {
        mp - 9
    };
    let y = yoe + era * 400 + if m <= 2 {
        1
    } else {
        0
    };
    (y, m, d)
}

/// `YYYY-MM-DD HH:MM:SS.SSS` of `utc_ms` milliseconds after the epoch in a
/// zone `offset_seconds` ahead of UTC.
pub fn local_time_text(utc_ms: u64, offset_seconds: i32) -> (r: String)
    ensures
        r@ == time_text(local_ms(utc_ms, offset_seconds)),
{
    let shifted: i128 = utc_ms as i128 + offset_seconds as i128 * 1000 + 146097 * 86400000;
    let t: u128 = shifted as u128;
    let rem: u128 = t % 86400000;
    let days: u64 = (t / 86400000) as u64;
    let ymd = civil_exec(days + 719468);
    let mut r = padded_text(ymd.0 - 400, 4);
    r.append("-");
    r.append(padded_text(ymd.1, 2).as_str());
    r.append("-");
    r.append(padded_text(ymd.2, 2).as_str());
    r.append(" ");
    r.append(padded_text((rem / 3600000) as u64, 2).as_str());
    r.append(":");
    r.append(padded_text((rem / 60000 % 60) as u64, 2).as_str());
    r.append(":");
    r.append(padded_text((rem / 1000 % 60) as u64, 2).as_str());
    r.append(".");
    r.append(padded_text((rem % 1000) as u64, 3).as_str());
    proof {
        reveal_strlit("-");
        reveal_strlit(" ");
        reveal_strlit(":");
        reveal_strlit(".");
    }
    r
}

} // verus!
