//! The page source that maps anonymous memory from the operating system, as
//! far as it decides anything: how many bytes to map for a request, and what
//! the answer of each system call means. The calls themselves are made by
//! the program that uses the library.

use crate::allocator::Slice;
use crate::util::{checked_next_multiple_of, spec_align_up};
use vstd::prelude::*;

verus! {

/// The unit in which memory is mapped: 2 MiB, the size of a huge page.
pub const MAPPING_UNIT: usize = 0x20_0000;

/// The address that a failed mapping call returns: all bits set.
pub const MAP_FAILED: usize = usize::MAX;

/// Why a mapping call gave no page.
#[derive(Clone, Copy, Debug, PartialEq, Eq, Structural)]
pub enum MapError {
    /// The call failed; the system's error number says why.
    Failed,
    /// The call returned the null address.
    Null,
}

/// Why a call that answers with a status did not succeed.
#[derive(Clone, Copy, Debug, PartialEq, Eq, Structural)]
pub enum StatusError {
    /// The call failed; the system's error number says why.
    Failed,
    /// The call returned a status that is neither 0 nor -1.
    Unexpected(i32),
}

/// The page source that maps anonymous memory in units of 2 MiB and asks for
/// huge pages.
#[derive(Clone, Copy, Debug)]
pub struct DynamicPageAlloc;

impl DynamicPageAlloc {
    /// The number of bytes to map for a page of `size` bytes: `size` rounded
    /// up to a multiple of 2 MiB, if that fits in `usize`.
    pub fn mapping_size(size: usize) -> (res: Option<usize>)
        requires
            size > 0,
        ensures
            match res {
                Some(len) => len == spec_align_up(size as int, MAPPING_UNIT as int) && len >= size
                    && len > 0,
                None => spec_align_up(size as int, MAPPING_UNIT as int) > usize::MAX,
            },
    {
        proof {
            crate::util::lemma_align_up_is_least_multiple(size as int, MAPPING_UNIT as int);
        }
        checked_next_multiple_of(size, MAPPING_UNIT)
    }

    /// What a mapping call that was asked for `len` bytes and returned
    /// `addr` has given: the page at `addr`, unless `addr` is the address
    /// that marks a failure, or null.
    pub fn mapped(addr: usize, len: usize) -> (res: Result<Slice, MapError>)
        ensures
            res == if addr == MAP_FAILED {
                Err::<Slice, MapError>(MapError::Failed)
            } else if addr == 0 {
                Err::<Slice, MapError>(MapError::Null)
            } else {
                Ok::<Slice, MapError>(Slice { ptr: addr, len })
            },
    {
        if addr == MAP_FAILED {
            Err(MapError::Failed)
        } else if addr == 0 {
            Err(MapError::Null)
        } else {
            Ok(Slice { ptr: addr, len })
        }
    }

    /// What the status `ret` of a call to advise on, or to unmap, a mapping
    /// means: 0 is success, -1 a failure, anything else is unexpected.
    pub fn status(ret: i32) -> (res: Result<(), StatusError>)
        ensures
            res == if ret == 0 {
                Ok::<(), StatusError>(())
            } else if ret == -1 {
                Err::<(), StatusError>(StatusError::Failed)
            } else {
                Err::<(), StatusError>(StatusError::Unexpected(ret))
            },
    {
        if ret == 0 {
            Ok(())
        } else if ret == -1 {
            Err(StatusError::Failed)
        } else {
            Err(StatusError::Unexpected(ret))
        }
    }
}

} // verus!
