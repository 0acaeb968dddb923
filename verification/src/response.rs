use vstd::prelude::*;

verus! {

/// An instant in UTC: whole seconds since the Unix epoch and the
/// nanoseconds past that second.
#[derive(Clone, Copy, Debug, PartialEq, Eq, Structural)]
pub struct Timestamp {
    pub secs: i64,
    pub nanos: u32,
}

/// std's `SystemTime`, a reading of the system clock.
#[verifier::external_type_specification]
#[verifier::external_body]
pub struct ExSystemTime(std::time::SystemTime);

/// Reads the system clock through std's `SystemTime::now`. Nothing is
/// promised of the reading.
#[verifier::external_body]
fn read_clock() -> std::time::SystemTime {
    std::time::SystemTime::now()
}

/// std's `SystemTime::duration_since(UNIX_EPOCH)`: how long after the Unix
/// epoch the reading `t` lies, or `None` where it lies before (std's `Err`).
/// Nothing is stated of the duration: the reading is opaque here.
#[verifier::external_body]
fn since_unix_epoch(t: &std::time::SystemTime) -> Option<core::time::Duration> {
    match t.duration_since(std::time::UNIX_EPOCH) {
        Ok(d) => Some(d),
        Err(_) => None,
    }
}

/// std's `Duration::as_secs`: the whole seconds of `d`. Nothing is stated of
/// them: the duration is opaque here.
#[verifier::external_body]
fn whole_secs(d: &core::time::Duration) -> u64 {
    d.as_secs()
}

/// std's `Duration::subsec_nanos`: the nanoseconds of `d` past its whole
/// seconds, which std documents as always below one billion.
#[verifier::external_body]
fn subsec_nanos(d: &core::time::Duration) -> (r: u32)
    ensures
        r < 1_000_000_000,
{
    d.subsec_nanos()
}

/// The largest number of seconds a `Timestamp` holds.
pub const MAX_TIMESTAMP_SECS: u64 = 9_223_372_036_854_775_807;

/// The instant `secs` seconds and `nanos` nanoseconds after the Unix epoch,
/// where the seconds fit a `Timestamp`.
pub fn timestamp_from_epoch(secs: u64, nanos: u32) -> (r: Option<Timestamp>)
    ensures
        secs <= MAX_TIMESTAMP_SECS ==> r == Some(Timestamp { secs: secs as i64, nanos }),
        secs > MAX_TIMESTAMP_SECS ==> r.is_none(),
{
    if secs <= MAX_TIMESTAMP_SECS {
        Some(Timestamp { secs: secs as i64, nanos })
    } else {
        None
    }
}

/// chrono's `DateTime::from_timestamp(secs, nanos)` for `Utc`, handed back
/// through its `timestamp` and `timestamp_subsec_nanos`. chrono documents
/// that these round-trip, so an instant it makes holds `secs` and `nanos`
/// unchanged. It answers `None` for seconds outside its calendar (years
/// before -262143 or after 262142) or invalid nanoseconds; seconds from 0 to
/// 8 000 000 000 000 (some 253 500 years after 1970) with nanoseconds below one
/// billion lie within it.
#[verifier::external_body]
fn utc_instant(secs: i64, nanos: u32) -> (r: Option<Timestamp>)
    ensures
        r matches Some(t) ==> t.secs == secs && t.nanos == nanos,
        0 <= secs <= 8_000_000_000_000 && nanos < 1_000_000_000 ==> r.is_some(),
{
    match chrono::DateTime::from_timestamp(secs, nanos) {
        Some(dt) => Some(Timestamp { secs: dt.timestamp(), nanos: dt.timestamp_subsec_nanos() }),
        None => None,
    }
}

/// The current instant as chrono makes it from the system clock, if the
/// clock reads a time at or after the Unix epoch that chrono's calendar
/// holds; `None` otherwise.
pub fn current_time() -> (r: Option<Timestamp>)
    ensures
        r matches Some(t) ==> t.secs >= 0 && t.nanos < 1_000_000_000,
{
    let now = read_clock();
    match since_unix_epoch(&now) {
        Some(d) => match timestamp_from_epoch(whole_secs(&d), subsec_nanos(&d)) {
            Some(t) => utc_instant(t.secs, t.nanos),
            None => None,
        },
        None => None,
    }
}

/// `reading` is what a call of `current_time` gives: the clock as read at
/// that call.
pub open spec fn is_clock_reading(reading: Option<Timestamp>) -> bool {
    call_ensures(current_time, (), reading)
}

/// The envelope in which every answer of the API is sent. Its timestamp is
/// the instant the answer was made, where the clock could be read.
pub struct ApiResponse<T> {
    pub success: bool,
    pub data: Option<T>,
    pub error: Option<String>,
    pub timestamp: Option<Timestamp>,
}

impl<T> ApiResponse<T> {
    /// A successful answer carrying `data`, stamped with `timestamp`.
    pub fn ok_at(data: T, timestamp: Option<Timestamp>) -> (res: Self)
        ensures
            res.success,
            res.data == Some(data),
            res.error.is_none(),
            res.timestamp == timestamp,
    {
        ApiResponse { success: true, data: Some(data), error: None, timestamp }
    }

    /// A failed answer carrying the message `msg`, stamped with `timestamp`.
    pub fn err_at(msg: &str, timestamp: Option<Timestamp>) -> (res: Self)
        ensures
            !res.success,
            res.data.is_none(),
            res.error matches Some(e) && e@ == msg@,
            res.timestamp == timestamp,
    {
        ApiResponse { success: false, data: None, error: Some(msg.to_owned()), timestamp }
    }

    /// A successful answer carrying `data`, stamped with the current time.
    pub fn ok(data: T) -> (res: Self)
        ensures
            res.success,
            res.data == Some(data),
            res.error.is_none(),
            res.timestamp matches Some(t) ==> t.secs >= 0 && t.nanos < 1_000_000_000,
            is_clock_reading(res.timestamp),
    {
        let now = current_time();
        Self::ok_at(data, now)
    }

    /// A failed answer carrying the message `msg`, stamped with the current
    /// time.
    pub fn err(msg: &str) -> (res: Self)
        ensures
            !res.success,
            res.data.is_none(),
            res.error matches Some(e) && e@ == msg@,
            res.timestamp matches Some(t) ==> t.secs >= 0 && t.nanos < 1_000_000_000,
            is_clock_reading(res.timestamp),
    {
        let now = current_time();
        Self::err_at(msg, now)
    }
}

/// What an envelope's timestamp is: the reading that `current_time` gave
/// when the envelope was made, which, where there is one, is an instant at
/// or after the Unix epoch with its nanoseconds below one billion.
pub proof fn law_envelope_stamped_with_clock_reading<T>(res: ApiResponse<T>)
    requires
        is_clock_reading(res.timestamp),
    ensures
        res.timestamp matches Some(t) ==> t.secs >= 0 && t.nanos < 1_000_000_000,
{
}

} // verus!
