//! Hashing and timestamp utilities.
//!
//! The cryptographic digest and its textual encoding come from
//! outside crates behind trusted wrappers; timestamp validation is
//! the library's own, verified against an exact calendar spec.

use vstd::prelude::*;

use base64::Engine;
use vstd::string::StringSliceAdditionalSpecFns;
use sha2::Digest;

verus! {

/// What the outside SHA-256 digest returns for given input; a pure
/// function of the bytes alone.
pub uninterp spec fn sha256_of(data: Seq<u8>) -> Seq<u8>;

/// Relies on sha2::Sha256 (the Digest trait): a 32-byte SHA-256
/// digest, a function of the input bytes alone.
#[verifier::external_body]
pub fn sha256(data: &[u8]) -> (r: Vec<u8>)
    ensures
        r@ == sha256_of(data@),
        r@.len() == 32,
{
    sha2::Sha256::digest(data).to_vec()
}

/// What the outside standard base64 encoder returns for given input;
/// a pure function of the bytes alone.
pub uninterp spec fn base64_of(data: Seq<u8>) -> Seq<char>;

/// Relies on base64's STANDARD engine: padded base64, four output
/// characters for every three input bytes (rounded up), a function
/// of the input bytes alone.
#[verifier::external_body]
pub fn base64_encode(data: &[u8]) -> (r: String)
    ensures
        r@ == base64_of(data@),
        r@.len() == 4 * ((data@.len() + 2) / 3),
{
    base64::engine::general_purpose::STANDARD.encode(data)
}

/// A content hash: the base64 encoding of the SHA-256 digest.
/// Always 44 characters.
pub fn calculate_hash(data: &[u8]) -> (r: String)
    ensures
        r@ == base64_of(sha256_of(data@)),
        r@.len() == 44,
{
    let digest = sha256(data);
    base64_encode(digest.as_slice())
}

/// Relies on chrono (Utc::now, formatted as `%Y-%m-%d %H:%M:%S`):
/// the current time; only the shape of the text is promised, since
/// the value depends on the clock.
#[verifier::external_body]
pub fn get_timestamp() -> (r: String)
    ensures
        r@.len() >= 19,
{
    chrono::Utc::now().format("%Y-%m-%d %H:%M:%S").to_string()
}

/// Relies on chrono (Utc::now().timestamp()): seconds since the Unix
/// epoch; nothing is promised of the value, which depends on the
/// clock.
#[verifier::external_body]
pub fn now_unix() -> i64 {
    chrono::Utc::now().timestamp()
}

/// Relies on num_cpus::get, which always reports at least one CPU.
#[verifier::external_body]
pub fn cpu_count() -> (r: usize)
    ensures
        r >= 1,
{
    num_cpus::get()
}

pub open spec fn ts_digit(s: Seq<u8>, i: int) -> bool {
    0x30 <= s[i] <= 0x39
}

pub open spec fn ts_two(s: Seq<u8>, i: int) -> int {
    (s[i] - 0x30) * 10 + (s[i + 1] - 0x30)
}

pub open spec fn spec_leap_year(y: int) -> bool {
    (y % 4 == 0 && y % 100 != 0) || y % 400 == 0
}

pub open spec fn spec_days_in_month(y: int, m: int) -> int {
    if m == 1 || m == 3 || m == 5 || m == 7 || m == 8 || m == 10 || m == 12 {
        31
    } else if m == 4 || m == 6 || m == 9 || m == 11 {
        30
    } else if spec_leap_year(y) {
        29
    } else {
        28
    }
}

/// A well-formed `YYYY-MM-DD HH:MM:SS` timestamp: the exact layout,
/// a calendar-valid date (leap years included) and a valid time of
/// day.
pub open spec fn spec_core_ts(s: Seq<u8>) -> bool {
    &&& s.len() == 19
    &&& ts_digit(s, 0) && ts_digit(s, 1) && ts_digit(s, 2) && ts_digit(s, 3)
    &&& s[4] == 0x2d && s[7] == 0x2d && s[10] == 0x20 && s[13] == 0x3a && s[16] == 0x3a
    &&& ts_digit(s, 5) && ts_digit(s, 6) && ts_digit(s, 8) && ts_digit(s, 9)
    &&& ts_digit(s, 11) && ts_digit(s, 12) && ts_digit(s, 14) && ts_digit(s, 15)
    &&& ts_digit(s, 17) && ts_digit(s, 18)
    &&& {
        let y = ts_two(s, 0) * 100 + ts_two(s, 2);
        let m = ts_two(s, 5);
        let d = ts_two(s, 8);
        1 <= m <= 12 && 1 <= d <= spec_days_in_month(y, m) && ts_two(s, 11) <= 23 && ts_two(
            s,
            14,
        ) <= 59 && ts_two(s, 17) <= 59
    }
}

/// A valid timestamp string: the core form, optionally suffixed with
/// ` UTC`.
pub open spec fn spec_valid_timestamp(s: Seq<u8>) -> bool {
    if s.len() == 23 {
        s.subrange(19, 23) == seq![0x20u8, 0x55u8, 0x54u8, 0x43u8] && spec_core_ts(
            s.subrange(0, 19),
        )
    } else {
        spec_core_ts(s)
    }
}

fn check_two(b: &[u8], i: usize) -> (r: Option<u8>)
    requires
        i + 2 <= b@.len(),
    ensures
        match r {
            Some(v) => ts_digit(b@, i as int) && ts_digit(b@, i + 1) && v == ts_two(b@, i as int),
            None => !(ts_digit(b@, i as int) && ts_digit(b@, i + 1)),
        },
{
    let hi = b[i];
    let lo = b[i + 1];
    if 0x30 <= hi && hi <= 0x39 && 0x30 <= lo && lo <= 0x39 {
        Some((hi - 0x30) * 10 + (lo - 0x30))
    } else {
        None
    }
}

/// Validates a `YYYY-MM-DD HH:MM:SS` timestamp (an optional ` UTC`
/// suffix is accepted): exact layout, calendar-valid date, valid
/// time of day.
pub fn validate_timestamp(timestamp: &str) -> (r: bool)
    ensures
        r == spec_valid_timestamp(timestamp.spec_bytes()),
{
    let b = timestamp.as_bytes();
    let core: &[u8] = if b.len() == 23 {
        if !(b[19] == 0x20 && b[20] == 0x55 && b[21] == 0x54 && b[22] == 0x43) {
            return false;
        }
        proof {
            assert(b@.subrange(19, 23) =~= seq![0x20u8, 0x55u8, 0x54u8, 0x43u8]);
        }
        vstd::slice::slice_subrange(b, 0, 19)
    } else {
        b
    };
    if core.len() != 19 {
        return false;
    }
    if !(core[4] == 0x2d && core[7] == 0x2d && core[10] == 0x20 && core[13] == 0x3a && core[16]
        == 0x3a) {
        return false;
    }
    let c0 = match check_two(core, 0) {
        Some(v) => v,
        None => {
            return false;
        },
    };
    let c2 = match check_two(core, 2) {
        Some(v) => v,
        None => {
            return false;
        },
    };
    let m = match check_two(core, 5) {
        Some(v) => v,
        None => {
            return false;
        },
    };
    let d = match check_two(core, 8) {
        Some(v) => v,
        None => {
            return false;
        },
    };
    let h = match check_two(core, 11) {
        Some(v) => v,
        None => {
            return false;
        },
    };
    let mi = match check_two(core, 14) {
        Some(v) => v,
        None => {
            return false;
        },
    };
    let se = match check_two(core, 17) {
        Some(v) => v,
        None => {
            return false;
        },
    };
    let y: u32 = (c0 as u32) * 100 + (c2 as u32);
    if !(1 <= m && m <= 12) {
        return false;
    }
    let dim: u8 = if m == 1 || m == 3 || m == 5 || m == 7 || m == 8 || m == 10 || m == 12 {
        31
    } else if m == 4 || m == 6 || m == 9 || m == 11 {
        30
    } else if (y % 4 == 0 && y % 100 != 0) || y % 400 == 0 {
        29
    } else {
        28
    };
    1 <= d && d <= dim && h <= 23 && mi <= 59 && se <= 59
}

} // verus!
