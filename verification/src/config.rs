//! The settings of a scan, and the reading of the two settings that are
//! written with a unit: the bandwidth and the cooldown.

use vstd::prelude::*;
use vstd::string::StringSliceAdditionalSpecFns;
use crate::cidr::{decimal, digits_end, is_digit};

verus! {

/// The length of a probe on the wire, without preamble and frame check.
pub const PACKET_LENGTH: u64 = 54;

/// The bits that a frame takes on the wire beyond its own: preamble, start
/// delimiter, frame check sequence and inter-frame gap.
pub const FRAME_OVERHEAD_BITS: u64 = 192;

/// The bits of the shortest frame on the wire, overhead included.
pub const MIN_FRAME_BITS: u64 = 672;

/// The settings of a scan.
#[derive(Clone, Debug)]
pub struct Config {
    pub target_port: u16,
    pub output_file: String,
    pub blacklist_file: Option<String>,
    pub whitelist_file: Option<String>,
    pub max_targets: u32,
    pub max_results: u32,
    pub max_runtime: u32,
    pub rate: i32,
    pub bandwidth: u64,
    pub cooldown_secs: u64,
    pub seed: u32,
    pub sender_threads: i32,
    pub probes: u32,
    pub dryrun: bool,
    pub source_port_first: u16,
    pub source_port_last: u16,
    pub source_ip_first: u32,
    pub source_ip_last: u32,
    pub interface: String,
    pub gw_mac: [u8; 6],
    pub quiet: bool,
    pub naive_probes: bool,
}

/// Why a number with a unit could not be read.
#[derive(Clone, Copy, Debug, PartialEq, Eq, Structural)]
pub enum ParseNumberError {
    /// The text before the unit is empty or holds something else than digits.
    NotANumber,
    /// The unit is none of `G`, `M`, `K` in either case.
    UnknownSuffix,
    /// The value does not fit in 64 bits.
    TooLarge,
}

/// The factor that a unit letter stands for.
pub open spec fn suffix_factor(b: u8) -> Option<u64> {
    if b == 71 || b == 103 {
        Some(1_000_000_000u64)
    } else if b == 77 || b == 109 {
        Some(1_000_000u64)
    } else if b == 75 || b == 107 {
        Some(1_000u64)
    } else {
        None
    }
}

/// What a text of digits alone says.
pub open spec fn number_meaning(s: Seq<u8>, end: int) -> Result<u64, ParseNumberError> {
    if end <= 0 || digits_end(s, 0, end) != end {
        Err(ParseNumberError::NotANumber)
    } else if decimal(s, 0, end) > u64::MAX {
        Err(ParseNumberError::TooLarge)
    } else {
        Ok(decimal(s, 0, end) as u64)
    }
}

/// What a bandwidth says: a number followed by one unit letter, in bits per
/// second.
pub open spec fn bandwidth_meaning(s: Seq<u8>) -> Result<u64, ParseNumberError> {
    match number_meaning(s, s.len() - 1) {
        Err(e) => Err(e),
        Ok(value) => match suffix_factor(s.last()) {
            None => Err(ParseNumberError::UnknownSuffix),
            Some(factor) => if value * factor > u64::MAX {
                Err(ParseNumberError::TooLarge)
            } else {
                Ok((value * factor) as u64)
            },
        },
    }
}

/// A longer run of digits writes a number that is at least as large.
proof fn lemma_decimal_grows(s: Seq<u8>, i: int, j: int, k: int)
    requires
        i <= j <= k,
        forall|x: int| i <= x < k ==> is_digit(#[trigger] s[x]),
    ensures
        decimal(s, i, j) <= decimal(s, i, k),
    decreases k - j,
{
    if j < k {
        lemma_decimal_grows(s, i, j, k - 1);
    }
}

/// Reads the digits before `end` as a number.
fn read_number(s: &[u8], end: usize) -> (r: Result<u64, ParseNumberError>)
    requires
        end <= s@.len(),
    ensures
        r == number_meaning(s@, end as int),
{
    if end == 0 {
        return Err(ParseNumberError::NotANumber);
    }
    let mut j: usize = 0;
    while j < end && 48 <= s[j] && s[j] <= 57
        invariant
            j <= end <= s@.len(),
            digits_end(s@, 0, end as int) == digits_end(s@, j as int, end as int),
            forall|x: int| 0 <= x < j ==> is_digit(#[trigger] s@[x]),
        decreases end - j,
    {
        j = j + 1;
    }
    if j != end {
        return Err(ParseNumberError::NotANumber);
    }
    let mut value: u64 = 0;
    let mut k: usize = 0;
    while k < end
        invariant
            k <= end <= s@.len(),
            value == decimal(s@, 0, k as int),
            forall|x: int| 0 <= x < end ==> is_digit(#[trigger] s@[x]),
            digits_end(s@, 0, end as int) == end,
        decreases end - k,
    {
        let d: u64 = (s[k] - 48) as u64;
        if value > (u64::MAX - d) / 10 {
            proof {
                assert(is_digit(s@[k as int]));
                assert(decimal(s@, 0, k + 1) == value * 10 + d);
                assert(value * 10 + d > u64::MAX);
                lemma_decimal_grows(s@, 0, k + 1, end as int);
                assert(digits_end(s@, 0, end as int) == end);
            }
            return Err(ParseNumberError::TooLarge);
        }
        value = value * 10 + d;
        k = k + 1;
    }
    Ok(value)
}

/// Reads a bandwidth in bits per second: digits and one of the unit letters
/// `G`, `M` and `K`, in either case.
pub fn parse_bandwidth(arg: &str) -> (r: Result<u64, ParseNumberError>)
    ensures
        r == bandwidth_meaning(arg.spec_bytes()),
{
    let s = arg.as_bytes();
    if s.len() == 0 {
        return Err(ParseNumberError::NotANumber);
    }
    let end = s.len() - 1;
    let value = match read_number(s, end) {
        Ok(v) => v,
        Err(e) => {
            return Err(e);
        },
    };
    let last = s[end];
    let factor: u64 = if last == 71 || last == 103 {
        1_000_000_000
    } else if last == 77 || last == 109 {
        1_000_000
    } else if last == 75 || last == 107 {
        1_000
    } else {
        return Err(ParseNumberError::UnknownSuffix);
    };
    if value > u64::MAX / factor {
        assert(value * factor > u64::MAX) by (nonlinear_arith)
            requires
                value > u64::MAX / factor,
                factor == 1_000_000_000 || factor == 1_000_000 || factor == 1_000,
        ;
        return Err(ParseNumberError::TooLarge);
    }
    assert(value * factor <= u64::MAX) by (nonlinear_arith)
        requires
            value <= u64::MAX / factor,
            factor == 1_000_000_000 || factor == 1_000_000 || factor == 1_000,
    ;
    Ok(value * factor)
}

/// Reads a duration in whole seconds: digits alone.
pub fn parse_duration(arg: &str) -> (r: Result<u64, ParseNumberError>)
    ensures
        r == number_meaning(arg.spec_bytes(), arg.spec_bytes().len() as int),
{
    let s = arg.as_bytes();
    read_number(s, s.len())
}

/// The bits that one probe takes on the wire.
pub open spec fn packet_bits() -> u64 {
    if PACKET_LENGTH * 8 + FRAME_OVERHEAD_BITS < MIN_FRAME_BITS {
        MIN_FRAME_BITS
    } else {
        (PACKET_LENGTH * 8 + FRAME_OVERHEAD_BITS) as u64
    }
}

/// The send rate in packets per second that follows from the settings. With
/// no bandwidth the given rate stands. With one, the rate is the number of
/// whole probes that the bandwidth carries in a second, but at least 1; where
/// that number does not fit the rate it is 0, which means no limit.
pub open spec fn rate_for(bandwidth: u64, rate: i32) -> i32 {
    if bandwidth == 0 {
        rate
    } else if bandwidth / packet_bits() > i32::MAX {
        0
    } else if bandwidth / packet_bits() == 0 {
        1
    } else {
        (bandwidth / packet_bits()) as i32
    }
}

/// The send rate that follows from a bandwidth, or the given rate where no
/// bandwidth is set.
pub fn derive_rate(bandwidth: u64, rate: i32) -> (r: i32)
    ensures
        r == rate_for(bandwidth, rate),
{
    if bandwidth == 0 {
        return rate;
    }
    let mut packet_len: u64 = PACKET_LENGTH * 8 + FRAME_OVERHEAD_BITS;
    if packet_len < MIN_FRAME_BITS {
        packet_len = MIN_FRAME_BITS;
    }
    let per_second = bandwidth / packet_len;
    if per_second > 0x7FFF_FFFF {
        0
    } else if per_second == 0 {
        1
    } else {
        per_second as i32
    }
}

} // verus!
