//! Reading the values given on the command line.
use vstd::prelude::*;

use crate::backup::CONFIG_FILE_EXTENSION;
use crate::config::{cpus_u32, low_bits};
use crate::datetime::{spec_try_parse, try_parse, DateTime};
use crate::text::{concat, copy_string, str_ends_with};

verus! {

/// The value of a text of decimal digits.
pub open spec fn digits_value(s: Seq<char>) -> int
    decreases s.len(),
{
    if s.len() == 0 {
        0
    } else {
        digits_value(s.drop_last()) * 10 + (s.last() as int - '0' as int)
    }
}

/// The text is made of decimal digits, at least one.
pub open spec fn is_digits(s: Seq<char>) -> bool {
    s.len() > 0 && forall|i: int| 0 <= i < s.len() ==> '0' <= #[trigger] s[i] <= '9'
}

/// The number a text writes: an optional sign (`-` only where negative
/// numbers are read), then decimal digits.
pub open spec fn signed_value(s: Seq<char>, signed: bool) -> Option<int> {
    if s.len() > 0 && s[0] == '+' && is_digits(s.drop_first()) {
        Some(digits_value(s.drop_first()))
    } else if signed && s.len() > 0 && s[0] == '-' && is_digits(s.drop_first()) {
        Some(-digits_value(s.drop_first()))
    } else if is_digits(s) {
        Some(digits_value(s))
    } else {
        None
    }
}

/// The number `str::parse::<i32>` reads from a text: an optional `+` or
/// `-`, then decimal digits, for a number that fits.
pub open spec fn spec_parse_i32(s: Seq<char>) -> Option<i32> {
    match signed_value(s, true) {
        Some(v) => if i32::MIN <= v <= i32::MAX {
            Some(v as i32)
        } else {
            None
        },
        None => None,
    }
}

/// The number `str::parse::<u32>` reads from a text: an optional `+`, then
/// decimal digits, for a number that fits.
pub open spec fn spec_parse_u32(s: Seq<char>) -> Option<u32> {
    match signed_value(s, false) {
        Some(v) => if 0 <= v <= u32::MAX {
            Some(v as u32)
        } else {
            None
        },
        None => None,
    }
}

/// The decimal digit of a number below ten.
pub open spec fn digit_char(d: int) -> char {
    ('0' as int + d) as char
}

/// The decimal text of a number, without leading zeros.
pub open spec fn decimal_text(n: nat) -> Seq<char>
    decreases n,
{
    if n < 10 {
        seq![digit_char(n as int)]
    } else {
        decimal_text(n / 10).push(digit_char((n % 10) as int))
    }
}

/// The text `u32`'s `Display` writes for a number: its decimal digits.
pub open spec fn spec_display_u32(n: u32) -> Seq<char> {
    decimal_text(n as nat)
}

/// Reads a number (`str::parse::<i32>`); the result is as `spec_parse_i32` says.
#[verifier::external_body]
fn parse_i32(s: &str) -> (r: Option<i32>)
    ensures
        r == spec_parse_i32(s@),
{
    s.parse::<i32>().ok()
}

/// Reads a number (`str::parse::<u32>`); the result is as `spec_parse_u32` says.
#[verifier::external_body]
fn parse_u32(s: &str) -> (r: Option<u32>)
    ensures
        r == spec_parse_u32(s@),
{
    s.parse::<u32>().ok()
}

/// Writes a number in decimal (`u32::to_string`): its digits, as `spec_display_u32` says.
#[verifier::external_body]
fn display_u32(n: u32) -> (r: String)
    ensures
        r@ == spec_display_u32(n),
{
    n.to_string()
}

/// The message of a compression quality out of range.
pub const QUALITY_ARG_ERROR: &'static str = "Must be a number between 1-22!";

/// The message of a time that names no time.
pub const MISSING_TIME: &'static str = "Missing time";

/// The start of the message of a config path without the config extension.
pub const CONFIG_PATH_ERROR: &'static str = "The config file must end with";

/// The start of the message of a thread count out of range.
pub const CPU_ARG_ERROR: &'static str = "Must be a number between 1-";

/// Reads a compression quality: a number from 1 to 22.
pub fn parse_quality(s: &str) -> (r: Result<i32, &'static str>)
    ensures
        (spec_parse_i32(s@) matches Some(i) && 1 <= i <= 22) ==> r == Ok::<i32, &'static str>(
            spec_parse_i32(s@)->0,
        ),
        !(spec_parse_i32(s@) matches Some(i) && 1 <= i <= 22) ==> (r matches Err(e) && e@
            == QUALITY_ARG_ERROR@),
{
    if let Some(i) = parse_i32(s) {
        if 1 <= i && i <= 22 {
            return Ok(i);
        }
    }
    Err(QUALITY_ARG_ERROR)
}

/// The message of a thread count out of range, for `cpus` processors.
pub open spec fn cpu_error(cpus: u32) -> Seq<char> {
    CPU_ARG_ERROR@ + spec_display_u32(cpus) + "!"@
}

/// Reads a number of threads: from 1 to the number of processors `cpus`.
pub fn parse_cpu_count(s: &str, cpus: u32) -> (r: Result<u32, String>)
    ensures
        (spec_parse_u32(s@) matches Some(i) && 1 <= i <= cpus) ==> r == Ok::<u32, String>(
            spec_parse_u32(s@)->0,
        ),
        !(spec_parse_u32(s@) matches Some(i) && 1 <= i <= cpus) ==> (r matches Err(e) && e@
            == cpu_error(cpus)),
{
    if let Some(i) = parse_u32(s) {
        if 1 <= i && i <= cpus {
            return Ok(i);
        }
    }
    let n = display_u32(cpus);
    let m = concat(CPU_ARG_ERROR, n.as_str());
    Err(concat(m.as_str(), "!"))
}

/// Reads a number of threads: from 1 to the number of processors of this machine.
pub fn parse_cpu(s: &str) -> (r: Result<u32, String>)
    ensures
        exists|n: usize|
            n >= 1 && ({
                let cpus = #[trigger] low_bits(n);
                &&& (spec_parse_u32(s@) matches Some(i) && 1 <= i <= cpus) ==> r == Ok::<
                    u32,
                    String,
                >(spec_parse_u32(s@)->0)
                &&& !(spec_parse_u32(s@) matches Some(i) && 1 <= i <= cpus) ==> (r matches Err(e)
                    && e@ == cpu_error(cpus))
            }),
{
    let cpus = cpus_u32();
    parse_cpu_count(s, cpus)
}

/// Reads the time of a previous backup, in any known format; an empty text names no time.
pub fn parse_time(s: &str) -> (r: Result<DateTime, &'static str>)
    ensures
        spec_try_parse(s@) matches Some(Some(t)) ==> r == Ok::<DateTime, &'static str>(t),
        spec_try_parse(s@) matches Some(None) ==> (r matches Err(e) && e@ == MISSING_TIME@),
        spec_try_parse(s@) is None ==> r is Err,
{
    match try_parse(s) {
        Ok(Some(t)) => Ok(t),
        Ok(None) => Err(MISSING_TIME),
        Err(e) => Err(e),
    }
}

/// Reads the path of a new config: it must end with the config extension.
pub fn parse_config_path(s: &str) -> (r: Result<String, String>)
    ensures
        CONFIG_FILE_EXTENSION@.is_suffix_of(s@) ==> (r matches Ok(p) && p@ == s@),
        !CONFIG_FILE_EXTENSION@.is_suffix_of(s@) ==> (r matches Err(e) && e@ == CONFIG_PATH_ERROR@
            + CONFIG_FILE_EXTENSION@),
{
    if str_ends_with(s, CONFIG_FILE_EXTENSION) {
        Ok(copy_string(s))
    } else {
        Err(concat(CONFIG_PATH_ERROR, CONFIG_FILE_EXTENSION))
    }
}

} // verus!
