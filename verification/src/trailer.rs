//! Segment trailers shared by the SPK and binary PCK readers.
//!
//! A Chebyshev segment (SPK Types 2 and 3, PCK Type 2) ends with
//! `[INIT, INTLEN, RSIZE, N]`; a discrete-state segment (SPK Types 9 and
//! 13) ends with `[WINDOW_OR_DEGREE, N]`. The counts are doubles read
//! with `as usize`.

use vstd::prelude::*;

use crate::daf::{address_range_ok, doubles_in, out_of_bounds, DafError, DafFile};
use crate::double_word::{double_le, double_le_exec, double_to_uint, double_to_uint_exec};

verus! {

/// What the trailer of a Chebyshev segment describes.
#[derive(Debug, Clone, Copy)]
pub struct ChebyshevMeta {
    pub init: u64,
    pub intlen: u64,
    pub rsize: usize,
    pub n_records: usize,
    pub n_coef: usize,
    pub start_addr: u32,
}

/// What the trailer of a discrete-state segment describes.
#[derive(Debug, Clone, Copy)]
pub struct DiscreteMeta {
    pub window_or_degree: usize,
    pub n_states: usize,
    pub states_start: u32,
    pub epochs_start: u32,
}

/// `end - k` on `u32` addresses, wrapping below zero.
pub open spec fn back(end: u32, k: u32) -> u32 {
    if end >= k {
        (end - k) as u32
    } else {
        (end + 0x1_0000_0000 - k) as u32
    }
}

/// A double read with `as usize`.
pub open spec fn as_usize(bits: u64) -> usize {
    double_to_uint(bits, usize::MAX as int) as usize
}

/// The doubles at DAF addresses `start..=end`, or the reader's error.
pub open spec fn read_block(s: Seq<u8>, start: u32, end: u32) -> Result<Seq<u64>, DafError> {
    if address_range_ok(s, start, end) {
        Ok(doubles_in(s, start as int, end as int))
    } else {
        Err(out_of_bounds(s, start, end))
    }
}

pub open spec fn no_records() -> &'static str {
    "segment has no records"
}

/// Check a Chebyshev trailer `t = [INIT, INTLEN, RSIZE, N]` of a segment
/// whose records hold `channels` coefficient blocks; the messages are the
/// caller's for a bad RSIZE, for no coefficients and for INTLEN <= 0. A
/// segment with no records has no record to evaluate and is refused.
pub open spec fn chebyshev_check(
    t: Seq<u64>,
    start_addr: u32,
    channels: nat,
    msg_rsize: &'static str,
    msg_degree: &'static str,
    msg_intlen: &'static str,
) -> Result<ChebyshevMeta, &'static str> {
    let rsize = as_usize(t[2]);
    let n_records = as_usize(t[3]);
    if rsize < 2 || (rsize - 2) % (channels as int) != 0 {
        Err(msg_rsize)
    } else if (rsize - 2) / (channels as int) == 0 {
        Err(msg_degree)
    } else if double_le(t[1], 0) {
        Err(msg_intlen)
    } else if n_records == 0 {
        Err(no_records())
    } else {
        Ok(
            ChebyshevMeta {
                init: t[0],
                intlen: t[1],
                rsize,
                n_records,
                n_coef: ((rsize - 2) / (channels as int)) as usize,
                start_addr,
            },
        )
    }
}

/// Check a discrete-state trailer `t = [WINDOW_OR_DEGREE, N]` against the
/// segment's address range: `6 N` states, `N` epochs, `(N - 1) / 100`
/// directory epochs (every hundredth epoch but the last), then the two
/// trailer doubles.
pub open spec fn discrete_check(t: Seq<u64>, start_addr: u32, end_addr: u32) -> Result<
    DiscreteMeta,
    &'static str,
> {
    let n = as_usize(t[1]);
    if n == 0 {
        Err("empty discrete-state segment")
    } else if start_addr + 7 * n + (n - 1) / 100 + 1 != end_addr {
        Err("segment size does not match trailer")
    } else {
        Ok(
            DiscreteMeta {
                window_or_degree: as_usize(t[0]),
                n_states: n,
                states_start: start_addr,
                epochs_start: (start_addr + 6 * n) as u32,
            },
        )
    }
}

/// `end - k` on `u32` addresses, wrapping below zero.
pub fn back_exec(end: u32, k: u32) -> (r: u32)
    ensures
        r == back(end, k),
{
    if end >= k {
        end - k
    } else {
        (end as u64 + 0x1_0000_0000 - k as u64) as u32
    }
}

/// Read the last `k + 1` doubles of a segment ending at `end_addr`.
pub fn read_trailer(daf: &DafFile, end_addr: u32, k: u32) -> (r: Result<Vec<u64>, DafError>)
    ensures
        match read_block(daf@, back(end_addr, k), end_addr) {
            Ok(t) => r matches Ok(v) && v@ == t,
            Err(e) => r matches Err(x) && x == e,
        },
{
    let start = back_exec(end_addr, k);
    daf.read_doubles(start, end_addr)
}

/// Check a Chebyshev trailer (see [`chebyshev_check`]).
pub fn check_chebyshev(
    t: &[u64],
    start_addr: u32,
    channels: usize,
    msg_rsize: &'static str,
    msg_degree: &'static str,
    msg_intlen: &'static str,
) -> (r: Result<ChebyshevMeta, &'static str>)
    requires
        t@.len() == 4,
        channels > 0,
    ensures
        r == chebyshev_check(t@, start_addr, channels as nat, msg_rsize, msg_degree, msg_intlen),
{
    let init = t[0];
    let intlen = t[1];
    let rsize = double_to_uint_exec(t[2], usize::MAX as u64) as usize;
    let n_records = double_to_uint_exec(t[3], usize::MAX as u64) as usize;
    if rsize < 2 || (rsize - 2) % channels != 0 {
        return Err(msg_rsize);
    }
    let n_coef = (rsize - 2) / channels;
    if n_coef == 0 {
        return Err(msg_degree);
    }
    if double_le_exec(intlen, 0) {
        return Err(msg_intlen);
    }
    if n_records == 0 {
        return Err("segment has no records");
    }
    Ok(ChebyshevMeta { init, intlen, rsize, n_records, n_coef, start_addr })
}

/// Check a discrete-state trailer (see [`discrete_check`]).
pub fn check_discrete(t: &[u64], start_addr: u32, end_addr: u32) -> (r: Result<
    DiscreteMeta,
    &'static str,
>)
    requires
        t@.len() == 2,
    ensures
        r == discrete_check(t@, start_addr, end_addr),
{
    let window_or_degree = double_to_uint_exec(t[0], usize::MAX as u64) as usize;
    let n = double_to_uint_exec(t[1], usize::MAX as u64) as usize;
    if n == 0 {
        return Err("empty discrete-state segment");
    }
    let expected: u128 = start_addr as u128 + 7 * (n as u128) + ((n - 1) as u128) / 100 + 1;
    if expected != end_addr as u128 {
        return Err("segment size does not match trailer");
    }
    let epochs_start = (start_addr as u128 + 6 * (n as u128)) as u32;
    Ok(DiscreteMeta { window_or_degree, n_states: n, states_start: start_addr, epochs_start })
}

} // verus!
