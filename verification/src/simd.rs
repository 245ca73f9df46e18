//! Block-wise search and scan, laid out in lanes as vector units work.
//!
//! A search looks at a whole block of windows at a time and keeps one running
//! minimum per lane of four neighboring windows. The lane with the least
//! minimum then tells where the first minimal window is, up to four positions,
//! and a last look at those four settles it. However many lanes there are, the
//! result is the one of the plain search in [`crate::scalar`], so boundaries
//! do not depend on the width a machine works with.

use crate::laws::law_last_look_settles_search;
use crate::scalar;
use crate::scalar::{
    first_min, is_byte_run_len, is_common_prefix_len, is_first_min, window_key, word_byte,
};
use vstd::prelude::*;

verus! {

/// The widest supported search, in lanes of four windows.
pub const MAX_LANES: usize = 16;

/// The shortest input that fills a block of the narrowest width.
pub const MIN_BLOCK_LEN: usize = 19;

/// How many windows a search looks at in one step.
#[derive(Copy, Clone, Debug, PartialEq, Eq, Structural)]
pub enum Width {
    /// One window after the other.
    Scalar,
    /// Blocks of 16 windows, in four lanes.
    Block16,
    /// Blocks of 32 windows, in eight lanes.
    Block32,
    /// Blocks of 64 windows, in sixteen lanes.
    Block64,
}

/// Whether the running minimum of lane `l` accounts for a window at `j` with
/// the given key: it is smaller, or it is equal and does not lie behind `j`.
spec fn accounts_for(
    vals: Seq<u32>,
    offsets: Seq<usize>,
    lanes: int,
    l: int,
    key: int,
    j: int,
) -> bool {
    &&& 0 <= l < lanes
    &&& (vals[l] < key || (vals[l] == key && offsets[l] + 4 * l <= j))
}

/// Whether some lane accounts for the window of `b` at `j`.
spec fn accounted(
    b: Seq<u8>,
    hashed: bool,
    multiplier: u32,
    addend: u32,
    vals: Seq<u32>,
    offsets: Seq<usize>,
    lanes: int,
    j: int,
) -> bool {
    exists|l: int|
        accounts_for(
            vals,
            offsets,
            lanes,
            l,
            window_key(b, j, hashed, multiplier, addend),
            j,
        )
}

/// Whether the running minimum of a lane is the key of one of the four
/// windows that it points to.
spec fn attained(
    b: Seq<u8>,
    hashed: bool,
    multiplier: u32,
    addend: u32,
    val: u32,
    pos: int,
) -> bool {
    ||| window_key(b, pos, hashed, multiplier, addend) == val
    ||| window_key(b, pos + 1, hashed, multiplier, addend) == val
    ||| window_key(b, pos + 2, hashed, multiplier, addend) == val
    ||| window_key(b, pos + 3, hashed, multiplier, addend) == val
}

/// Whether `pos` is the first minimal window of `b`, or up to three positions
/// before it where `b` fills a block; 0 if there is no window.
pub open spec fn within_four(
    b: Seq<u8>,
    hashed: bool,
    multiplier: u32,
    addend: u32,
    pos: int,
) -> bool {
    if b.len() >= MIN_BLOCK_LEN {
        &&& 0 <= pos <= b.len() - 7
        &&& pos <= first_min(b, hashed, multiplier, addend) < pos + 4
    } else if b.len() >= 4 {
        pos == first_min(b, hashed, multiplier, addend)
    } else {
        pos == 0
    }
}

/// The least key of the four windows from `at` on.
fn lane_min<const SHOULD_HASH: bool>(
    bytes: &[u8],
    at: usize,
    multiplier: u32,
    addend: u32,
) -> (v: u32)
    requires
        at + 7 <= bytes.len(),
    ensures
        attained(bytes@, SHOULD_HASH, multiplier, addend, v, at as int),
        forall|j: int|
            at <= j < at + 4 ==> v <= #[trigger] window_key(
                bytes@,
                j,
                SHOULD_HASH,
                multiplier,
                addend,
            ),
{
    let v0: u32 = scalar::load_key::<SHOULD_HASH>(bytes, at, multiplier, addend);
    let v1: u32 = scalar::load_key::<SHOULD_HASH>(bytes, at + 1, multiplier, addend);
    let v2: u32 = scalar::load_key::<SHOULD_HASH>(bytes, at + 2, multiplier, addend);
    let v3: u32 = scalar::load_key::<SHOULD_HASH>(bytes, at + 3, multiplier, addend);
    let m01: u32 = if v1 < v0 {
        v1
    } else {
        v0
    };
    let m23: u32 = if v3 < v2 {
        v3
    } else {
        v2
    };
    if m23 < m01 {
        m23
    } else {
        m01
    }
}

/// Running minima and their offsets before any block was looked at.
fn empty_lanes() -> (lanes: ([u32; 16], [usize; 16]))
    ensures
        forall|l: int| 0 <= l < 16 ==> #[trigger] lanes.0@[l] == u32::MAX,
        forall|l: int| 0 <= l < 16 ==> #[trigger] lanes.1@[l] == 0,
{
    let vals: [u32; 16] = [
        u32::MAX, u32::MAX, u32::MAX, u32::MAX, u32::MAX, u32::MAX, u32::MAX, u32::MAX,
        u32::MAX, u32::MAX, u32::MAX, u32::MAX, u32::MAX, u32::MAX, u32::MAX, u32::MAX,
    ];
    let offsets: [usize; 16] = [0, 0, 0, 0, 0, 0, 0, 0, 0, 0, 0, 0, 0, 0, 0, 0];
    (vals, offsets)
}

/// A position that has the first minimal window of `bytes` within the next
/// four positions, found in blocks of `lanes` lanes.
///
/// The last block is moved back so that it ends with the input.
fn argmin_within_four<const SHOULD_HASH: bool>(
    bytes: &[u8],
    multiplier: u32,
    addend: u32,
    lanes: usize,
) -> (pos: usize)
    requires
        1 <= lanes <= MAX_LANES,
        bytes@.len() >= 4 * lanes + 3,
    ensures
        pos + 7 <= bytes@.len(),
        pos <= first_min(bytes@, SHOULD_HASH, multiplier, addend) < pos + 4,
{
    let n: usize = bytes.len();
    let width: usize = 4 * lanes;
    let (mut min_val, mut min_offset) = empty_lanes();
    let mut offset: usize = 0;
    let ghost mut covered: int = 0;
    while offset <= n - 4
        invariant
            n == bytes@.len(),
            1 <= lanes <= 16,
            width == 4 * lanes,
            n >= width + 3,
            0 <= covered,
            offset == covered,
            covered <= n - 3,
            covered == 0 ==> forall|l: int|
                0 <= l < lanes ==> min_val@[l] == u32::MAX && #[trigger] min_offset@[l] == 0,
            forall|l: int|
                0 <= l < lanes ==> #[trigger] min_offset@[l] <= covered && min_offset@[l] + width
                    + 3 <= n,
            covered > 0 ==> forall|l: int|
                0 <= l < lanes ==> attained(
                    bytes@,
                    SHOULD_HASH,
                    multiplier,
                    addend,
                    #[trigger] min_val@[l],
                    min_offset@[l] + 4 * l,
                ),
            forall|j: int|
                0 <= j < covered ==> #[trigger] accounted(
                    bytes@,
                    SHOULD_HASH,
                    multiplier,
                    addend,
                    min_val@,
                    min_offset@,
                    lanes as int,
                    j,
                ),
        decreases n - covered,
    {
        if offset > n - width - 3 {
            offset = n - width - 3;
        }
        let ghost old_val = min_val@;
        let ghost old_offset = min_offset@;
        let mut lane: usize = 0;
        while lane < lanes
            invariant
                n == bytes@.len(),
                1 <= lanes <= 16,
                0 <= lane <= lanes,
                width == 4 * lanes,
                offset + width + 3 <= n,
                min_val@.len() == 16,
                min_offset@.len() == 16,
                old_val.len() == 16,
                old_offset.len() == 16,
                forall|l: int| lane <= l < 16 ==> #[trigger] min_val@[l] == old_val[l],
                forall|l: int| lane <= l < 16 ==> #[trigger] min_offset@[l] == old_offset[l],
                forall|l: int|
                    #![trigger min_val@[l]]
                    #![trigger min_offset@[l]]
                    0 <= l < lane ==> {
                        ||| (min_val@[l] == old_val[l] && min_offset@[l]
                            == old_offset[l] && (old_val[l] == u32::MAX ==> attained(
                            bytes@,
                            SHOULD_HASH,
                            multiplier,
                            addend,
                            u32::MAX,
                            offset + 4 * l,
                        )))
                        ||| (min_val@[l] < old_val[l] && min_offset@[l] == offset && attained(
                            bytes@,
                            SHOULD_HASH,
                            multiplier,
                            addend,
                            min_val@[l],
                            offset + 4 * l,
                        ))
                    },
                forall|l: int, j: int|
                    0 <= l < lane && offset + 4 * l <= j < offset + 4 * l + 4
                        ==> #[trigger] min_val@[l] <= #[trigger] window_key(
                        bytes@,
                        j,
                        SHOULD_HASH,
                        multiplier,
                        addend,
                    ),
            decreases lanes - lane,
        {
            let v: u32 = lane_min::<SHOULD_HASH>(bytes, offset + 4 * lane, multiplier, addend);
            if v < min_val[lane] {
                min_val[lane] = v;
                min_offset[lane] = offset;
            }
            lane += 1;
        }
        proof {
            let new_covered = offset + width;
            assert forall|j: int| 0 <= j < new_covered implies #[trigger] accounted(
                bytes@,
                SHOULD_HASH,
                multiplier,
                addend,
                min_val@,
                min_offset@,
                lanes as int,
                j,
            ) by {
                let key = window_key(bytes@, j, SHOULD_HASH, multiplier, addend);
                if j < covered {
                    assert(accounted(
                        bytes@,
                        SHOULD_HASH,
                        multiplier,
                        addend,
                        old_val,
                        old_offset,
                        lanes as int,
                        j,
                    ));
                    let l = choose|l: int|
                        accounts_for(old_val, old_offset, lanes as int, l, key, j);
                    assert(min_val@[l] <= old_val[l]);
                    assert(accounts_for(min_val@, min_offset@, lanes as int, l, key, j));
                } else {
                    let l = (j - offset) / 4;
                    assert(offset + 4 * l <= j < offset + 4 * l + 4);
                    assert(min_val@[l] <= key);
                    assert(accounts_for(min_val@, min_offset@, lanes as int, l, key, j));
                }
            }
            covered = new_covered;
        }
        offset += width;
    }
    let mut best_val: u32 = min_val[0];
    let mut best_pos: usize = min_offset[0];
    let ghost mut best: int = 0;
    let mut lane: usize = 1;
    while lane < lanes
        invariant
            1 <= lane <= lanes <= 16,
            width == 4 * lanes,
            0 <= best < lane,
            best_val == min_val@[best],
            best_pos == min_offset@[best] + 4 * best,
            forall|l: int|
                0 <= l < lanes ==> #[trigger] min_offset@[l] + width + 3 <= n,
            n == bytes@.len(),
            forall|l: int|
                0 <= l < lane ==> best_val <= #[trigger] min_val@[l] && (best_val == min_val@[l]
                    ==> best_pos <= min_offset@[l] + 4 * l),
        decreases lanes - lane,
    {
        let pos: usize = min_offset[lane] + 4 * lane;
        if min_val[lane] < best_val || (min_val[lane] == best_val && pos < best_pos) {
            best_val = min_val[lane];
            best_pos = pos;
            proof {
                best = lane as int;
            }
        }
        lane += 1;
    }
    proof {
        scalar::lemma_first_min_exists(bytes@, SHOULD_HASH, multiplier, addend);
        let p = first_min(bytes@, SHOULD_HASH, multiplier, addend);
        let key = window_key(bytes@, p, SHOULD_HASH, multiplier, addend);
        assert(accounted(
            bytes@,
            SHOULD_HASH,
            multiplier,
            addend,
            min_val@,
            min_offset@,
            lanes as int,
            p,
        ));
        let l = choose|l: int|
            accounts_for(min_val@, min_offset@, lanes as int, l, key, p);
        assert(accounts_for(min_val@, min_offset@, lanes as int, l, key, p));
        assert(attained(
            bytes@,
            SHOULD_HASH,
            multiplier,
            addend,
            min_val@[l],
            min_offset@[l] + 4 * l,
        ));
        assert(attained(
            bytes@,
            SHOULD_HASH,
            multiplier,
            addend,
            min_val@[best],
            min_offset@[best] + 4 * best,
        ));
    }
    best_pos
}

/// What coming within four positions means for every first minimum.
proof fn lemma_within_four(b: Seq<u8>, hashed: bool, multiplier: u32, addend: u32, pos: int)
    requires
        within_four(b, hashed, multiplier, addend, pos),
    ensures
        4 <= b.len() < 19 ==> is_first_min(b, hashed, multiplier, addend, pos),
        b.len() >= 19 ==> {
            &&& pos + 7 <= b.len()
            &&& forall|k: int|
                #[trigger] is_first_min(b, hashed, multiplier, addend, k) ==> pos <= k < pos + 4
        },
{
    if b.len() >= 4 {
        scalar::lemma_first_min_exists(b, hashed, multiplier, addend);
    }
    assert forall|k: int| #[trigger] is_first_min(b, hashed, multiplier, addend, k) implies k
        == first_min(b, hashed, multiplier, addend) by {
        scalar::lemma_first_min_unique(b, hashed, multiplier, addend, k);
    }
}

/// The search in blocks of 64 windows, or in narrower ones if the input does
/// not fill a block. The result is exact on input shorter than
/// [`MIN_BLOCK_LEN`]. Else the first minimal window is one of the four from
/// there on, and [`scalar::argmin_u32_overlapping_hashed_four`] tells which.
pub fn block64_within_four<const SHOULD_HASH: bool>(
    bytes: &[u8],
    multiplier: u32,
    addend: u32,
) -> (pos: usize)
    ensures
        within_four(bytes@, SHOULD_HASH, multiplier, addend, pos as int),
        bytes@.len() < 4 ==> pos == 0,
        4 <= bytes@.len() < 19 ==> is_first_min(
            bytes@,
            SHOULD_HASH,
            multiplier,
            addend,
            pos as int,
        ),
        bytes@.len() >= 19 ==> {
            &&& pos + 7 <= bytes@.len()
            &&& forall|k: int|
                #[trigger] is_first_min(bytes@, SHOULD_HASH, multiplier, addend, k) ==> pos <= k
                    < pos + 4
        },
{
    if bytes.len() < 64 + 3 {
        return block32_within_four::<SHOULD_HASH>(bytes, multiplier, addend);
    }
    let pos: usize = argmin_within_four::<SHOULD_HASH>(bytes, multiplier, addend, 16);
    proof {
        lemma_within_four(bytes@, SHOULD_HASH, multiplier, addend, pos as int);
    }
    pos
}

/// The search in blocks of 32 windows; see [`block64_within_four`].
pub fn block32_within_four<const SHOULD_HASH: bool>(
    bytes: &[u8],
    multiplier: u32,
    addend: u32,
) -> (pos: usize)
    ensures
        within_four(bytes@, SHOULD_HASH, multiplier, addend, pos as int),
        bytes@.len() < 4 ==> pos == 0,
        4 <= bytes@.len() < 19 ==> is_first_min(
            bytes@,
            SHOULD_HASH,
            multiplier,
            addend,
            pos as int,
        ),
        bytes@.len() >= 19 ==> {
            &&& pos + 7 <= bytes@.len()
            &&& forall|k: int|
                #[trigger] is_first_min(bytes@, SHOULD_HASH, multiplier, addend, k) ==> pos <= k
                    < pos + 4
        },
{
    if bytes.len() < 32 + 3 {
        return block16_within_four::<SHOULD_HASH>(bytes, multiplier, addend);
    }
    let pos: usize = argmin_within_four::<SHOULD_HASH>(bytes, multiplier, addend, 8);
    proof {
        lemma_within_four(bytes@, SHOULD_HASH, multiplier, addend, pos as int);
    }
    pos
}

/// The search in blocks of 16 windows; see [`block64_within_four`].
pub fn block16_within_four<const SHOULD_HASH: bool>(
    bytes: &[u8],
    multiplier: u32,
    addend: u32,
) -> (pos: usize)
    ensures
        within_four(bytes@, SHOULD_HASH, multiplier, addend, pos as int),
        bytes@.len() < 4 ==> pos == 0,
        4 <= bytes@.len() < 19 ==> is_first_min(
            bytes@,
            SHOULD_HASH,
            multiplier,
            addend,
            pos as int,
        ),
        bytes@.len() >= 19 ==> {
            &&& pos + 7 <= bytes@.len()
            &&& forall|k: int|
                #[trigger] is_first_min(bytes@, SHOULD_HASH, multiplier, addend, k) ==> pos <= k
                    < pos + 4
        },
{
    if bytes.len() < 16 + 3 {
        let pos: usize = scalar::argmin_u32_overlapping_hashed::<SHOULD_HASH>(
            bytes,
            multiplier,
            addend,
        );
        proof {
            if bytes@.len() >= 4 {
                scalar::lemma_first_min_unique(bytes@, SHOULD_HASH, multiplier, addend, pos as int);
            }
        }
        return pos;
    }
    let pos: usize = argmin_within_four::<SHOULD_HASH>(bytes, multiplier, addend, 4);
    proof {
        lemma_within_four(bytes@, SHOULD_HASH, multiplier, addend, pos as int);
    }
    pos
}

/// The search with the given width. Every width finds the same window.
pub fn argmin_with_width<const SHOULD_HASH: bool>(
    width: Width,
    bytes: &[u8],
    multiplier: u32,
    addend: u32,
) -> (idx: usize)
    ensures
        bytes@.len() < 4 ==> idx == 0,
        bytes@.len() >= 4 ==> is_first_min(bytes@, SHOULD_HASH, multiplier, addend, idx as int),
        bytes@.len() >= 4 ==> {
            &&& idx + 4 <= bytes@.len()
            &&& forall|j: int|
                0 <= j <= bytes@.len() - 4 ==> {
                    &&& window_key(bytes@, idx as int, SHOULD_HASH, multiplier, addend)
                        <= #[trigger] window_key(bytes@, j, SHOULD_HASH, multiplier, addend)
                    &&& j < idx ==> window_key(
                        bytes@,
                        idx as int,
                        SHOULD_HASH,
                        multiplier,
                        addend,
                    ) < window_key(bytes@, j, SHOULD_HASH, multiplier, addend)
                }
        },
{
    let pos: usize = match width {
        Width::Scalar => {
            return scalar::argmin_u32_overlapping_hashed::<SHOULD_HASH>(bytes, multiplier, addend);
        },
        Width::Block16 => block16_within_four::<SHOULD_HASH>(bytes, multiplier, addend),
        Width::Block32 => block32_within_four::<SHOULD_HASH>(bytes, multiplier, addend),
        Width::Block64 => block64_within_four::<SHOULD_HASH>(bytes, multiplier, addend),
    };
    if bytes.len() >= MIN_BLOCK_LEN {
        let rest: &[u8] = &bytes[pos..bytes.len()];
        let bump: usize = scalar::argmin_u32_overlapping_hashed_four::<SHOULD_HASH>(
            rest,
            multiplier,
            addend,
        );
        proof {
            assert(rest@ == bytes@.skip(pos as int));
            law_last_look_settles_search(
                bytes@,
                SHOULD_HASH,
                multiplier,
                addend,
                pos as int,
                bump as int,
            );
        }
        pos + bump
    } else {
        proof {
            if bytes@.len() >= 4 {
                scalar::lemma_first_min_exists(bytes@, SHOULD_HASH, multiplier, addend);
            }
        }
        pos
    }
}

/// Index of the first of the overlapping four-byte windows of `bytes` whose
/// key is minimal; 0 if there is no window.
pub fn argmin_u32_overlapping_hashed<const SHOULD_HASH: bool>(
    bytes: &[u8],
    multiplier: u32,
    addend: u32,
) -> (idx: usize)
    ensures
        bytes@.len() < 4 ==> idx == 0,
        bytes@.len() >= 4 ==> is_first_min(bytes@, SHOULD_HASH, multiplier, addend, idx as int),
        bytes@.len() >= 4 ==> {
            &&& idx + 4 <= bytes@.len()
            &&& forall|j: int|
                0 <= j <= bytes@.len() - 4 ==> {
                    &&& window_key(bytes@, idx as int, SHOULD_HASH, multiplier, addend)
                        <= #[trigger] window_key(bytes@, j, SHOULD_HASH, multiplier, addend)
                    &&& j < idx ==> window_key(
                        bytes@,
                        idx as int,
                        SHOULD_HASH,
                        multiplier,
                        addend,
                    ) < window_key(bytes@, j, SHOULD_HASH, multiplier, addend)
                }
        },
{
    // Input that starts with zeros is relatively common, and no raw value is
    // smaller.
    if !SHOULD_HASH && bytes.len() >= 4 && bytes[0] == 0 && bytes[1] == 0 && bytes[2] == 0
        && bytes[3] == 0 {
        return 0;
    }
    argmin_with_width::<SHOULD_HASH>(Width::Block64, bytes, multiplier, addend)
}

proof fn lemma_or_is_zero(x: u64, y: u64)
    by (bit_vector)
    ensures
        x | y == 0 <==> x == 0 && y == 0,
{
}

/// Two words loaded from `a` and `b` agree exactly if their bytes do.
proof fn lemma_word_agrees(a: Seq<u8>, i: int, b: Seq<u8>, k: int, x: u64, y: u64)
    requires
        forall|d: int| 0 <= d < 8 ==> #[trigger] word_byte(x, d) == a[i + d],
        forall|d: int| 0 <= d < 8 ==> #[trigger] word_byte(y, d) == b[k + d],
    ensures
        x ^ y == 0 <==> forall|d: int| 0 <= d < 8 ==> #[trigger] a[i + d] == b[k + d],
{
    scalar::lemma_equal_words(x, y);
    if x ^ y != 0 {
        scalar::lemma_first_differing_byte(x, y);
        let q = (x ^ y).trailing_zeros() as int / 8;
        assert(word_byte(x, q) != word_byte(y, q));
        assert(a[i + q] != b[k + q]);
    } else {
        assert forall|d: int| 0 <= d < 8 implies #[trigger] a[i + d] == b[k + d] by {
            assert(word_byte(x, d) == word_byte(y, d));
        }
    }
}

/// Whether `a` from `i` on and `b` from `k` on agree in `words` words.
fn block_matches(a: &[u8], i: usize, b: &[u8], k: usize, words: usize) -> (same: bool)
    requires
        words <= 8,
        i + 8 * words <= a.len(),
        k + 8 * words <= b.len(),
    ensures
        same <==> forall|d: int| 0 <= d < 8 * words ==> #[trigger] a@[i + d] == b@[k + d],
{
    let mut diff: u64 = 0;
    let mut w: usize = 0;
    while w < words
        invariant
            words <= 8,
            w <= words,
            i + 8 * words <= a.len(),
            k + 8 * words <= b.len(),
            diff == 0 <==> forall|d: int| 0 <= d < 8 * w ==> #[trigger] a@[i + d] == b@[k + d],
        decreases words - w,
    {
        let x: u64 = scalar::load_word(a, i + 8 * w);
        let y: u64 = scalar::load_word(b, k + 8 * w);
        let ghost before = diff;
        diff = diff | (x ^ y);
        proof {
            lemma_or_is_zero(before, x ^ y);
            lemma_word_agrees(a@, i + 8 * w, b@, k + 8 * w, x, y);
            if diff == 0 {
                assert forall|d: int| 0 <= d < 8 * (w + 1) implies #[trigger] a@[i + d] == b@[k
                    + d] by {
                    if d >= 8 * w {
                        assert(a@[(i + 8 * w) + (d - 8 * w)] == b@[(k + 8 * w) + (d - 8 * w)]);
                    }
                }
            } else if x ^ y != 0 {
                let d = choose|d: int|
                    0 <= d < 8 && a@[(i + 8 * w) + d] != #[trigger] b@[(k + 8 * w) + d];
                assert(a@[i + (8 * w + d)] != b@[k + (8 * w + d)]);
            }
        }
        w += 1;
    }
    diff == 0
}

/// Index of the first of 16 bytes in which `a` from `i` on and `b` from `k` on
/// differ.
fn first_mismatch_lane(a: &[u8], i: usize, b: &[u8], k: usize) -> (lane: usize)
    requires
        i + 16 <= a.len(),
        k + 16 <= b.len(),
        exists|d: int| 0 <= d < 16 && #[trigger] a@[i + d] != b@[k + d],
    ensures
        lane < 16,
        forall|d: int| 0 <= d < lane ==> #[trigger] a@[i + d] == b@[k + d],
        a@[i + lane] != b@[k + lane],
{
    let x: u64 = scalar::load_word(a, i);
    let y: u64 = scalar::load_word(b, k);
    let low: u64 = x ^ y;
    proof {
        lemma_word_agrees(a@, i as int, b@, k as int, x, y);
    }
    if low != 0 {
        proof {
            scalar::lemma_first_differing_byte(x, y);
            let q = low.trailing_zeros() as int / 8;
            assert forall|d: int| 0 <= d < q implies #[trigger] a@[i + d] == b@[k + d] by {
                assert(word_byte(x, d) == word_byte(y, d));
            }
            assert(word_byte(x, q) != word_byte(y, q));
        }
        return (low.trailing_zeros() / 8) as usize;
    }
    let x8: u64 = scalar::load_word(a, i + 8);
    let y8: u64 = scalar::load_word(b, k + 8);
    let high: u64 = x8 ^ y8;
    proof {
        lemma_word_agrees(a@, i + 8, b@, k + 8, x8, y8);
        if high == 0 {
            assert forall|d: int| 8 <= d < 16 implies #[trigger] a@[i + d] == b@[k + d] by {
                assert(a@[(i + 8) + (d - 8)] == b@[(k + 8) + (d - 8)]);
            }
        }
        scalar::lemma_first_differing_byte(x8, y8);
        let q = high.trailing_zeros() as int / 8;
        assert forall|d: int| 8 <= d < 8 + q implies #[trigger] a@[i + d] == b@[k + d] by {
            assert(word_byte(x8, d - 8) == word_byte(y8, d - 8));
        }
        assert(word_byte(x8, q) != word_byte(y8, q));
    }
    8 + (high.trailing_zeros() / 8) as usize
}

/// Length of the common prefix of `a` and `b` (compared over the shorter one).
///
/// Skips 64 bytes at a time while everything matches, then 16, and leaves the
/// rest to the scan in [`crate::scalar`].
pub fn common_prefix_len(a: &[u8], b: &[u8]) -> (len: usize)
    ensures
        is_common_prefix_len(a@, b@, len as int),
        len <= a@.len(),
        len <= b@.len(),
        a@.take(len as int) == b@.take(len as int),
        len < a@.len() && len < b@.len() ==> a@[len as int] != b@[len as int],
{
    let n: usize = if a.len() < b.len() {
        a.len()
    } else {
        b.len()
    };
    let mut i: usize = 0;
    while n - i >= 64 && block_matches(a, i, b, i, 8)
        invariant
            n <= a.len(),
            n <= b.len(),
            i <= n,
            forall|j: int| 0 <= j < i ==> a@[j] == b@[j],
        decreases n - i,
    {
        proof {
            assert forall|j: int| i <= j < i + 64 implies a@[j] == b@[j] by {
                assert(a@[i + (j - i)] == b@[i + (j - i)]);
            }
        }
        i += 64;
    }
    while n - i >= 16
        invariant
            n <= a.len(),
            n <= b.len(),
            i <= n,
            forall|j: int| 0 <= j < i ==> a@[j] == b@[j],
        decreases n - i,
    {
        if !block_matches(a, i, b, i, 2) {
            let lane: usize = first_mismatch_lane(a, i, b, i);
            proof {
                assert forall|j: int| i <= j < i + lane implies a@[j] == b@[j] by {
                    assert(a@[i + (j - i)] == b@[i + (j - i)]);
                }
            }
            return i + lane;
        }
        proof {
            assert forall|j: int| i <= j < i + 16 implies a@[j] == b@[j] by {
                assert(a@[i + (j - i)] == b@[i + (j - i)]);
            }
        }
        i += 16;
    }
    let a_rest: &[u8] = &a[i..n];
    let b_rest: &[u8] = &b[i..n];
    let rest: usize = scalar::common_prefix_len(a_rest, b_rest);
    proof {
        assert forall|j: int| i <= j < i + rest implies a@[j] == b@[j] by {
            assert(a_rest@[j - i] == b_rest@[j - i]);
        }
        if rest < a_rest@.len() {
            assert(a_rest@[rest as int] != b_rest@[rest as int]);
        }
    }
    i + rest
}

/// Length of the prefix of `data` consisting entirely of `byte`.
///
/// Compares with a block of copies of `byte`; see [`common_prefix_len`].
pub fn byte_run_len(data: &[u8], byte: u8) -> (len: usize)
    ensures
        is_byte_run_len(data@, byte, len as int),
        len <= data@.len(),
        forall|i: int| 0 <= i < len ==> data@[i] == byte,
        len < data@.len() ==> data@[len as int] != byte,
{
    let n: usize = data.len();
    let needle: [u8; 64] = [byte; 64];
    let mut i: usize = 0;
    while n - i >= 64 && block_matches(data, i, &needle, 0, 8)
        invariant
            n == data.len(),
            i <= n,
            forall|d: int| 0 <= d < 64 ==> needle@[d] == byte,
            forall|j: int| 0 <= j < i ==> data@[j] == byte,
        decreases n - i,
    {
        proof {
            assert forall|j: int| i <= j < i + 64 implies data@[j] == byte by {
                assert(data@[i + (j - i)] == needle@[0 + (j - i)]);
            }
        }
        i += 64;
    }
    while n - i >= 16
        invariant
            n == data.len(),
            i <= n,
            forall|d: int| 0 <= d < 64 ==> needle@[d] == byte,
            forall|j: int| 0 <= j < i ==> data@[j] == byte,
        decreases n - i,
    {
        if !block_matches(data, i, &needle, 0, 2) {
            let lane: usize = first_mismatch_lane(data, i, &needle, 0);
            proof {
                assert forall|j: int| i <= j < i + lane implies data@[j] == byte by {
                    assert(data@[i + (j - i)] == needle@[0 + (j - i)]);
                }
                assert(needle@[0 + lane] == byte);
            }
            return i + lane;
        }
        proof {
            assert forall|j: int| i <= j < i + 16 implies data@[j] == byte by {
                assert(data@[i + (j - i)] == needle@[0 + (j - i)]);
            }
        }
        i += 16;
    }
    let data_rest: &[u8] = &data[i..n];
    let rest: usize = scalar::byte_run_len(data_rest, byte);
    proof {
        assert forall|j: int| i <= j < i + rest implies data@[j] == byte by {
            assert(data_rest@[j - i] == byte);
        }
        if rest < data_rest@.len() {
            assert(data_rest@[rest as int] != byte);
        }
    }
    i + rest
}

} // verus!
