//! The text form of a subnet list: one `A.B.C.D` or `A.B.C.D/len` per line,
//! with `#` starting a comment and blank lines skipped.

use vstd::prelude::*;

verus! {

/// What one line of a subnet list says.
#[derive(Clone, Copy, Debug, PartialEq, Eq, Structural)]
pub enum Line {
    /// Nothing but white space and comment.
    Blank,
    /// A subnet: an address and the number of its leading bits that count.
    Subnet { prefix: u32, len: i32 },
    /// Anything else.
    Malformed,
}

pub open spec fn is_space(b: u8) -> bool {
    b == 32 || (9 <= b && b <= 13)
}

pub open spec fn is_digit(b: u8) -> bool {
    48 <= b && b <= 57
}

/// The first index at or after `i` that holds `#`, or `end` if none does.
pub open spec fn comment_start(s: Seq<u8>, i: int, end: int) -> int
    decreases end - i,
{
    if i < end && s[i] != 35 {
        comment_start(s, i + 1, end)
    } else {
        i
    }
}

/// The first index at or after `i` that holds no white space, or `end`.
pub open spec fn spaces_end(s: Seq<u8>, i: int, end: int) -> int
    decreases end - i,
{
    if i < end && is_space(s[i]) {
        spaces_end(s, i + 1, end)
    } else {
        i
    }
}

/// The end of the text between `lo` and `hi` once trailing white space is
/// dropped.
pub open spec fn trimmed_end(s: Seq<u8>, lo: int, hi: int) -> int
    decreases hi - lo,
{
    if lo < hi && is_space(s[hi - 1]) {
        trimmed_end(s, lo, hi - 1)
    } else {
        hi
    }
}

/// The first index at or after `i` that holds no digit, or `end`.
pub open spec fn digits_end(s: Seq<u8>, i: int, end: int) -> int
    decreases end - i,
{
    if i < end && is_digit(s[i]) {
        digits_end(s, i + 1, end)
    } else {
        i
    }
}

/// The number that the digits from `i` up to `j` write in decimal.
pub open spec fn decimal(s: Seq<u8>, i: int, j: int) -> nat
    decreases j - i,
{
    if i < j {
        decimal(s, i, j - 1) * 10 + (s[j - 1] - 48) as nat
    } else {
        0
    }
}

/// A decimal number of one to `width` digits that starts at `i`, is written
/// without a leading zero and is at most `max`: its value and where it ends.
pub open spec fn number_at(s: Seq<u8>, i: int, end: int, width: int, max: nat) -> Option<
    (nat, int),
> {
    let j = digits_end(s, i, end);
    if 1 <= j - i <= width && (j - i == 1 || s[i] != 48) && decimal(s, i, j) <= max {
        Some((decimal(s, i, j), j))
    } else {
        None
    }
}

/// An address in dotted-quad form that starts at `i`: its value and where it
/// ends.
pub open spec fn address_at(s: Seq<u8>, i: int, end: int) -> Option<(nat, int)> {
    match number_at(s, i, end, 3, 255) {
        Some((a, ia)) if ia < end && s[ia] == 46 => match number_at(s, ia + 1, end, 3, 255) {
            Some((b, ib)) if ib < end && s[ib] == 46 => match number_at(s, ib + 1, end, 3, 255) {
                Some((c, ic)) if ic < end && s[ic] == 46 => match number_at(
                    s,
                    ic + 1,
                    end,
                    3,
                    255,
                ) {
                    Some((d, id)) => Some((((a * 256 + b) * 256 + c) * 256 + d, id)),
                    None => None,
                },
                _ => None,
            },
            _ => None,
        },
        _ => None,
    }
}

/// What the text between `lo` and `hi` says, where it is not empty.
pub open spec fn subnet_in(s: Seq<u8>, lo: int, hi: int) -> Line {
    match address_at(s, lo, hi) {
        Some((addr, i)) => if i == hi {
            Line::Subnet { prefix: addr as u32, len: 32 }
        } else if s[i] == 47 {
            match number_at(s, i + 1, hi, 2, 32) {
                Some((len, j)) if j == hi => Line::Subnet { prefix: addr as u32, len: len as i32 },
                _ => Line::Malformed,
            }
        } else {
            Line::Malformed
        },
        None => Line::Malformed,
    }
}

/// What a line says: the text before any `#`, without the white space around
/// it, is empty or is a subnet.
pub open spec fn line_meaning(s: Seq<u8>) -> Line {
    let stop = comment_start(s, 0, s.len() as int);
    let lo = spaces_end(s, 0, stop);
    let hi = trimmed_end(s, lo, stop);
    if lo == hi {
        Line::Blank
    } else {
        subnet_in(s, lo, hi)
    }
}

fn space(b: u8) -> (r: bool)
    ensures
        r == is_space(b),
{
    b == 32 || (9 <= b && b <= 13)
}

fn digit(b: u8) -> (r: bool)
    ensures
        r == is_digit(b),
{
    48 <= b && b <= 57
}

/// Reads a decimal number of one to `width` digits, at most `max`, at `i`.
fn read_number(s: &[u8], i: usize, end: usize, width: usize, max: u32) -> (r: Option<
    (u32, usize),
>)
    requires
        i <= end <= s@.len(),
        width <= 3,
    ensures
        match r {
            Some((v, j)) => number_at(s@, i as int, end as int, width as int, max as nat) == Some(
                (v as nat, j as int),
            ) && i < j <= end,
            None => number_at(s@, i as int, end as int, width as int, max as nat).is_none(),
        },
{
    let mut j: usize = i;
    while j < end && digit(s[j])
        invariant
            i <= j <= end <= s@.len(),
            digits_end(s@, i as int, end as int) == digits_end(s@, j as int, end as int),
            forall|x: int| i <= x < j ==> is_digit(#[trigger] s@[x]),
        decreases end - j,
    {
        j = j + 1;
    }
    if j - i < 1 || j - i > width || (j - i > 1 && s[i] == 48) {
        return None;
    }
    let mut value: u32 = 0;
    let mut k: usize = i;
    while k < j
        invariant
            i <= k <= j <= end <= s@.len(),
            j - i <= 3,
            value == decimal(s@, i as int, k as int),
            forall|x: int| i <= x < j ==> is_digit(#[trigger] s@[x]),
            k - i == 0 ==> value == 0,
            k - i == 1 ==> value <= 9,
            k - i == 2 ==> value <= 99,
            k - i == 3 ==> value <= 999,
        decreases j - k,
    {
        value = value * 10 + (s[k] - 48) as u32;
        k = k + 1;
    }
    if value > max {
        return None;
    }
    Some((value, j))
}

/// Reads an address in dotted-quad form at `i`.
fn read_address(s: &[u8], i: usize, end: usize) -> (r: Option<(u32, usize)>)
    requires
        i <= end <= s@.len(),
    ensures
        match r {
            Some((v, j)) => address_at(s@, i as int, end as int) == Some((v as nat, j as int))
                && i < j <= end,
            None => address_at(s@, i as int, end as int).is_none(),
        },
{
    let (a, ia) = match read_number(s, i, end, 3, 255) {
        Some(x) => x,
        None => {
            return None;
        },
    };
    if ia >= end || s[ia] != 46 {
        return None;
    }
    let (b, ib) = match read_number(s, ia + 1, end, 3, 255) {
        Some(x) => x,
        None => {
            return None;
        },
    };
    if ib >= end || s[ib] != 46 {
        return None;
    }
    let (c, ic) = match read_number(s, ib + 1, end, 3, 255) {
        Some(x) => x,
        None => {
            return None;
        },
    };
    if ic >= end || s[ic] != 46 {
        return None;
    }
    let (d, id) = match read_number(s, ic + 1, end, 3, 255) {
        Some(x) => x,
        None => {
            return None;
        },
    };
    Some((((a * 256 + b) * 256 + c) * 256 + d, id))
}

/// Reads one line of a subnet list.
pub fn parse_line(s: &[u8]) -> (line: Line)
    ensures
        line == line_meaning(s@),
        line matches Line::Subnet { len, .. } ==> 0 <= len <= 32,
{
    let n = s.len();
    let mut stop: usize = 0;
    while stop < n && s[stop] != 35
        invariant
            stop <= n == s@.len(),
            comment_start(s@, 0, n as int) == comment_start(s@, stop as int, n as int),
        decreases n - stop,
    {
        stop = stop + 1;
    }
    let mut lo: usize = 0;
    while lo < stop && space(s[lo])
        invariant
            lo <= stop <= s@.len(),
            spaces_end(s@, 0, stop as int) == spaces_end(s@, lo as int, stop as int),
        decreases stop - lo,
    {
        lo = lo + 1;
    }
    let mut hi: usize = stop;
    while lo < hi && space(s[hi - 1])
        invariant
            lo <= hi <= stop <= s@.len(),
            trimmed_end(s@, lo as int, stop as int) == trimmed_end(s@, lo as int, hi as int),
        decreases hi - lo,
    {
        hi = hi - 1;
    }
    if lo == hi {
        return Line::Blank;
    }
    let (addr, i) = match read_address(s, lo, hi) {
        Some(x) => x,
        None => {
            return Line::Malformed;
        },
    };
    if i == hi {
        return Line::Subnet { prefix: addr, len: 32 };
    }
    if s[i] != 47 {
        return Line::Malformed;
    }
    match read_number(s, i + 1, hi, 2, 32) {
        Some((len, j)) => {
            if j == hi {
                Line::Subnet { prefix: addr, len: len as i32 }
            } else {
                Line::Malformed
            }
        },
        None => Line::Malformed,
    }
}

} // verus!
