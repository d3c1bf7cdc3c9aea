//! Storage ceilings for attachments and the tolerance between the size
//! declared for an upload and the bytes that arrived.

use vstd::prelude::*;
use crate::error::CipherError;

verus! {

/// Deviation allowed between declared and received size: one MiB.
pub const SIZE_LEEWAY: i64 = 1048576;

pub open spec fn fits_i64(x: int) -> bool {
    i64::MIN <= x <= i64::MAX
}

/// What `attachment_allowance` yields for a configured limit in KiB.
pub open spec fn spec_allowance(limit_kb: Option<i64>, already_used: i64, size_adjust: i64) -> Result<Option<i64>, CipherError> {
    match limit_kb {
        None => Ok(None),
        Some(l) => {
            let bytes = l * 1024;
            let left = bytes - already_used;
            let total = left + size_adjust;
            if l == 0 {
                Err(CipherError::AttachmentsDisabled)
            } else if !fits_i64(bytes) || !fits_i64(left) || !fits_i64(total) {
                Err(CipherError::SizeOverflow)
            } else if total <= 0 {
                Err(CipherError::StorageLimitReached)
            } else {
                Ok(Some(total as i64))
            }
        }
    }
}

/// Bytes an owner may still store. `limit_kb` is the owner's configured
/// ceiling in KiB (`None`: unlimited, zero: attachments disabled);
/// `already_used` counts the owner's stored bytes; `size_adjust` is the
/// size already reserved by the attachment record being filled.
pub fn attachment_allowance(limit_kb: Option<i64>, already_used: i64, size_adjust: i64) -> (r: Result<Option<i64>, CipherError>)
    ensures
        r == spec_allowance(limit_kb, already_used, size_adjust),
{
    match limit_kb {
        None => Ok(None),
        Some(l) => {
            if l == 0 {
                return Err(CipherError::AttachmentsDisabled);
            }
            let bytes = match l.checked_mul(1024) {
                Some(b) => b,
                None => return Err(CipherError::SizeOverflow),
            };
            let rest = match bytes.checked_sub(already_used) {
                Some(x) => x,
                None => return Err(CipherError::SizeOverflow),
            };
            let left = rest.checked_add(size_adjust);
            match left {
                None => Err(CipherError::SizeOverflow),
                Some(left) => {
                    if left <= 0 {
                        Err(CipherError::StorageLimitReached)
                    } else {
                        Ok(Some(left))
                    }
                }
            }
        }
    }
}

/// Rejects a file larger than the allowance.
pub fn check_within_allowance(size: i64, allowance: Option<i64>) -> (r: Result<(), CipherError>)
    ensures
        r == (match allowance {
            Some(left) => if size > left { Err(CipherError::StorageLimitExceeded) } else { Ok(()) },
            None => Ok(()),
        }),
{
    match allowance {
        Some(left) => if size > left {
            Err(CipherError::StorageLimitExceeded)
        } else {
            Ok(())
        },
        None => Ok(()),
    }
}

/// How a received upload relates to the size declared for it.
pub open spec fn spec_upload_check(declared: i64, actual: i64) -> Result<bool, CipherError> {
    let max = declared + SIZE_LEEWAY;
    let min = declared - SIZE_LEEWAY;
    if !fits_i64(max) || !fits_i64(min) {
        Err(CipherError::InvalidSizeBound)
    } else if min <= actual <= max {
        Ok(actual != declared)
    } else {
        Err(CipherError::SizeMismatch { min: min as i64, max: max as i64, got: actual })
    }
}

/// Checks the received byte count against the declared size: within one
/// MiB either way it is accepted, and the result tells whether the stored
/// size must be corrected; outside, the error carries the accepted range.
pub fn check_upload_size(declared: i64, actual: i64) -> (r: Result<bool, CipherError>)
    ensures
        r == spec_upload_check(declared, actual),
{
    let max = match declared.checked_add(SIZE_LEEWAY) {
        Some(m) => m,
        None => return Err(CipherError::InvalidSizeBound),
    };
    let min = match declared.checked_sub(SIZE_LEEWAY) {
        Some(m) => m,
        None => return Err(CipherError::InvalidSizeBound),
    };
    if min <= actual && actual <= max {
        Ok(actual != declared)
    } else {
        Err(CipherError::SizeMismatch { min, max, got: actual })
    }
}

/// Relies on num_traits::ToPrimitive::to_i64 for `usize`: the same value
/// when it is at most `i64::MAX`, else `None`.
#[verifier::external_body]
fn usize_to_i64(n: usize) -> (r: Option<i64>)
    ensures
        match r {
            Some(x) => n <= i64::MAX && x == n,
            None => n > i64::MAX,
        },
{
    num_traits::ToPrimitive::to_i64(&n)
}

/// The length of received data as a signed byte count.
pub fn upload_len(len: usize) -> (r: Result<i64, CipherError>)
    ensures
        match r {
            Ok(x) => len <= i64::MAX && x == len,
            Err(e) => len > i64::MAX && e == CipherError::SizeOverflow,
        },
{
    match usize_to_i64(len) {
        Some(x) => Ok(x),
        None => Err(CipherError::SizeOverflow),
    }
}

} // verus!
