//! One-call interface for embedding in external harnesses.

use crate::caterpillar::packed_repeats;
use crate::mincdc::{next_chunk_len, MinCdcHash4, DEFAULT_ADDEND, DEFAULT_MULTIPLIER};
use crate::model::{sure_repeats, Rule};
use vstd::prelude::*;

verus! {

/// The default rule with the given size limits.
pub open spec fn default_rule(min_size: usize, max_size: usize) -> Rule<MinCdcHash4> {
    Rule {
        min: min_size as nat,
        max: max_size as nat,
        cdc: MinCdcHash4::of(DEFAULT_MULTIPLIER, DEFAULT_ADDEND),
    }
}

/// The length of the chunk at the front of `data` under the default rule, 0 if
/// there is none that can be decided, and the number of repeats that are bound
/// to follow it, if wanted.
pub open spec fn next_chunk(
    data: Seq<u8>,
    min_size: usize,
    max_size: usize,
    eof: bool,
    want_repeats: bool,
) -> (nat, nat) {
    if min_size > max_size || max_size == 0 {
        (0, 0)
    } else {
        match default_rule(min_size, max_size).chunk_len(data, eof) {
            None => (0, 0),
            Some(len) => (
                len,
                if want_repeats {
                    sure_repeats(data, len, max_size as nat)
                } else {
                    0
                },
            ),
        }
    }
}

/// Length of the next chunk at the front of `data`, using [`MinCdcHash4`] with
/// the default parameters, and the number of repeats.
///
/// `eof` means `data` is all the data there is. Without it at least
/// `max_size + 1` bytes must be available, or the boundary is undecidable and
/// the length 0 is returned. It is also returned for empty data and for size
/// limits that make no sense.
///
/// With `want_repeats` the second number is that of *additional* chunks, each
/// byte-identical to this one and of the same length, that are guaranteed to
/// follow. The caller may consume that many chunks of the returned length
/// without calling back in; the guarantee holds even if more stream data is
/// buffered in between, because those boundaries are decided by bytes already
/// proven periodic. Without `want_repeats` the packed scan is skipped and the
/// number is 0.
pub fn mothcdc_next_chunk(
    data: &[u8],
    min_size: usize,
    max_size: usize,
    eof: bool,
    want_repeats: bool,
) -> (next: (usize, usize))
    ensures
        (next.0 as nat, next.1 as nat) == next_chunk(
            data@,
            min_size,
            max_size,
            eof,
            want_repeats,
        ),
        min_size > max_size || max_size == 0 || data@.len() == 0 || (!eof && data@.len()
            <= max_size) ==> next == (0usize, 0usize),
        min_size <= max_size && max_size > 0 && data@.len() > 0 && (eof || data@.len() > max_size)
            ==> {
            &&& (Rule {
                min: min_size as nat,
                max: max_size as nat,
                cdc: MinCdcHash4::of(0x915f77f5, 0x34636463),
            }).chunk_len(data@, eof) == Some(next.0 as nat)
            &&& 0 < next.0 <= max_size
            &&& next.0 >= min_size || next.0 == data@.len()
        },
        !want_repeats ==> next.1 == 0,
        want_repeats && next.0 > 0 ==> {
            &&& next.1 > 0 ==> {
                &&& next.1 * next.0 + max_size < data@.len()
                &&& forall|j: int|
                    next.0 <= j < next.1 * next.0 + max_size ==> data@[j] == #[trigger] data@[j
                        - next.0]
            }
            &&& !((next.1 + 1) * next.0 + max_size < data@.len() && forall|j: int|
                next.0 <= j < (next.1 + 1) * next.0 + max_size ==> data@[j] == #[trigger] data@[j
                    - next.0])
        },
{
    if data.len() == 0 || min_size > max_size || max_size == 0 {
        return (0, 0);
    }
    let cdc: MinCdcHash4 = MinCdcHash4::new();
    proof {
        default_rule(min_size, max_size).lemma_chunk_len_bounds(data@, eof);
    }
    match next_chunk_len(data, min_size, max_size, eof, &cdc) {
        Some(len) => {
            let repeats: usize = if want_repeats {
                packed_repeats(data, len, max_size)
            } else {
                0
            };
            (len, repeats)
        },
        None => (0, 0),
    }
}

} // verus!
