//! Reading the answer of the inode flags query of Linux.
//!
//! The query itself is a system call and is made elsewhere; it leaves a status
//! code and a machine word. The flags are the low 32 bits of the word, and
//! they mean something only where the status code is zero.

use crate::record::{i64_bits, to_bits};
use vstd::prelude::*;

verus! {

/// The query failed with this status code.
#[derive(Debug, Clone, Copy, PartialEq, Eq)]
pub struct FlagsError {
    pub code: i32,
}

/// The low 32 bits of `word`.
pub open spec fn low_bits(word: i64) -> u32 {
    (i64_bits(word) % 0x1_0000_0000) as u32
}

/// The flags that the query found: the low 32 bits of `word` if `code` is
/// zero, and the failure with that code otherwise.
pub fn flags_from_query(code: i32, word: i64) -> (r: Result<u32, FlagsError>)
    ensures
        r == if code == 0 {
            Ok::<u32, FlagsError>(low_bits(word))
        } else {
            Err::<u32, FlagsError>(FlagsError { code })
        },
{
    if code == 0 {
        let bits: u64 = to_bits(word);
        Ok((bits % 0x1_0000_0000) as u32)
    } else {
        Err(FlagsError { code })
    }
}

} // verus!
