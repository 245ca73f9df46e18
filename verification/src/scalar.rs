//! Portable reference search and scan primitives.

use vstd::prelude::*;
use vstd::std_specs::bits::axiom_u64_trailing_zeros;

verus! {

/// The little-endian value of the four bytes of `b` from position `i` on.
pub open spec fn le_u32(b: Seq<u8>, i: int) -> int {
    b[i] + 0x100 * b[i + 1] + 0x1_0000 * b[i + 2] + 0x100_0000 * b[i + 3]
}

/// The multiplicative hash of a window value, modulo `2^32`.
pub open spec fn hash_u32(v: int, multiplier: u32, addend: u32) -> int {
    (v * multiplier + addend) % 0x1_0000_0000
}

/// The value by which the four-byte window of `b` at position `i` competes.
pub open spec fn window_key(
    b: Seq<u8>,
    i: int,
    hashed: bool,
    multiplier: u32,
    addend: u32,
) -> int {
    if hashed {
        hash_u32(le_u32(b, i), multiplier, addend)
    } else {
        le_u32(b, i)
    }
}

/// Whether the window at `k` is the first of those whose key is minimal.
pub open spec fn is_first_min(
    b: Seq<u8>,
    hashed: bool,
    multiplier: u32,
    addend: u32,
    k: int,
) -> bool {
    &&& 0 <= k <= b.len() - 4
    &&& forall|j: int|
        0 <= j <= b.len() - 4 ==> window_key(b, k, hashed, multiplier, addend)
            <= #[trigger] window_key(b, j, hashed, multiplier, addend)
    &&& forall|j: int|
        0 <= j < k ==> window_key(b, k, hashed, multiplier, addend) < #[trigger] window_key(
            b,
            j,
            hashed,
            multiplier,
            addend,
        )
}

/// The position of the first window with minimal key.
pub open spec fn first_min(b: Seq<u8>, hashed: bool, multiplier: u32, addend: u32) -> int {
    choose|k: int| is_first_min(b, hashed, multiplier, addend, k)
}

/// At most one position is the first minimum, so any such position is
/// [`first_min`].
pub proof fn lemma_first_min_unique(
    b: Seq<u8>,
    hashed: bool,
    multiplier: u32,
    addend: u32,
    k: int,
)
    requires
        is_first_min(b, hashed, multiplier, addend, k),
    ensures
        first_min(b, hashed, multiplier, addend) == k,
{
    let c = first_min(b, hashed, multiplier, addend);
    assert(is_first_min(b, hashed, multiplier, addend, c));
    let kc = window_key(b, c, hashed, multiplier, addend);
    let kk = window_key(b, k, hashed, multiplier, addend);
    assert(kc <= kk && kk <= kc);
}

/// Input of at least one window has a first minimum.
pub proof fn lemma_first_min_exists(b: Seq<u8>, hashed: bool, multiplier: u32, addend: u32)
    requires
        b.len() >= 4,
    ensures
        is_first_min(
            b,
            hashed,
            multiplier,
            addend,
            first_min(b, hashed, multiplier, addend),
        ),
{
    let k = lemma_first_min_witness(b, hashed, multiplier, addend, b.len() - 3);
    assert(is_first_min(b, hashed, multiplier, addend, k));
}

proof fn lemma_first_min_witness(
    b: Seq<u8>,
    hashed: bool,
    multiplier: u32,
    addend: u32,
    n: int,
) -> (k: int)
    requires
        1 <= n,
    ensures
        0 <= k < n,
        forall|j: int|
            0 <= j < n ==> window_key(b, k, hashed, multiplier, addend) <= #[trigger] window_key(
                b,
                j,
                hashed,
                multiplier,
                addend,
            ),
        forall|j: int|
            0 <= j < k ==> window_key(b, k, hashed, multiplier, addend) < #[trigger] window_key(
                b,
                j,
                hashed,
                multiplier,
                addend,
            ),
    decreases n,
{
    if n == 1 {
        0
    } else {
        let k = lemma_first_min_witness(b, hashed, multiplier, addend, n - 1);
        if window_key(b, n - 1, hashed, multiplier, addend) < window_key(
            b,
            k,
            hashed,
            multiplier,
            addend,
        ) {
            n - 1
        } else {
            k
        }
    }
}

/// The key of the window at `i`.
pub fn load_key<const SHOULD_HASH: bool>(
    bytes: &[u8],
    i: usize,
    multiplier: u32,
    addend: u32,
) -> (v: u32)
    requires
        i + 4 <= bytes@.len(),
    ensures
        v == window_key(bytes@, i as int, SHOULD_HASH, multiplier, addend),
        ({
            let raw = bytes@[i as int] + 0x100 * bytes@[i + 1] + 0x1_0000 * bytes@[i + 2]
                + 0x100_0000 * bytes@[i + 3];
            v == (if SHOULD_HASH {
                (raw * multiplier + addend) % 0x1_0000_0000
            } else {
                raw
            })
        }),
{
    let raw: u32 = bytes[i] as u32 + 0x100 * (bytes[i + 1] as u32) + 0x1_0000 * (bytes[i
        + 2] as u32) + 0x100_0000 * (bytes[i + 3] as u32);
    if SHOULD_HASH {
        proof {
            vstd::arithmetic::div_mod::lemma_add_mod_noop(
                raw * multiplier,
                addend as int,
                0x1_0000_0000,
            );
            vstd::arithmetic::div_mod::lemma_small_mod(addend as nat, 0x1_0000_0000);
        }
        raw.wrapping_mul(multiplier).wrapping_add(addend)
    } else {
        raw
    }
}

/// Index of the first of the overlapping four-byte windows of `bytes` whose
/// key is minimal; 0 if there is no window.
pub fn argmin_u32_overlapping_hashed<const SHOULD_HASH: bool>(
    bytes: &[u8],
    multiplier: u32,
    addend: u32,
) -> (idx: usize)
    ensures
        bytes@.len() < 4 ==> idx == 0,
        bytes@.len() >= 4 ==> is_first_min(bytes@, SHOULD_HASH, multiplier, addend, idx as int),
        bytes@.len() >= 4 ==> {
            &&& idx + 4 <= bytes@.len()
            &&& forall|j: int|
                0 <= j <= bytes@.len() - 4 ==> {
                    &&& window_key(bytes@, idx as int, SHOULD_HASH, multiplier, addend)
                        <= #[trigger] window_key(bytes@, j, SHOULD_HASH, multiplier, addend)
                    &&& j < idx ==> window_key(
                        bytes@,
                        idx as int,
                        SHOULD_HASH,
                        multiplier,
                        addend,
                    ) < window_key(bytes@, j, SHOULD_HASH, multiplier, addend)
                }
        },
{
    let n: usize = bytes.len();
    if n < 4 {
        return 0;
    }
    let mut min_idx: usize = 0;
    let mut min_val: u32 = load_key::<SHOULD_HASH>(bytes, 0, multiplier, addend);
    let mut i: usize = 1;
    while i <= n - 4
        invariant
            n == bytes@.len(),
            4 <= n,
            1 <= i <= n - 3,
            0 <= min_idx < i,
            min_val == window_key(bytes@, min_idx as int, SHOULD_HASH, multiplier, addend),
            forall|j: int|
                0 <= j < i ==> min_val <= #[trigger] window_key(
                    bytes@,
                    j,
                    SHOULD_HASH,
                    multiplier,
                    addend,
                ),
            forall|j: int|
                0 <= j < min_idx ==> min_val < #[trigger] window_key(
                    bytes@,
                    j,
                    SHOULD_HASH,
                    multiplier,
                    addend,
                ),
        decreases n - i,
    {
        let v: u32 = load_key::<SHOULD_HASH>(bytes, i, multiplier, addend);
        if v < min_val {
            min_val = v;
            min_idx = i;
        }
        i += 1;
    }
    min_idx
}

/// Index of the first of the first four windows of `bytes` whose key is
/// minimal among them.
pub fn argmin_u32_overlapping_hashed_four<const SHOULD_HASH: bool>(
    bytes: &[u8],
    multiplier: u32,
    addend: u32,
) -> (idx: usize)
    requires
        bytes@.len() >= 7,
    ensures
        is_first_min(bytes@.take(7), SHOULD_HASH, multiplier, addend, idx as int),
        idx < 4,
        forall|j: int|
            0 <= j < 4 ==> {
                &&& window_key(bytes@, idx as int, SHOULD_HASH, multiplier, addend)
                    <= #[trigger] window_key(bytes@, j, SHOULD_HASH, multiplier, addend)
                &&& j < idx ==> window_key(bytes@, idx as int, SHOULD_HASH, multiplier, addend)
                    < window_key(bytes@, j, SHOULD_HASH, multiplier, addend)
            },
{
    let mut min_idx: usize = 0;
    let mut min_val: u32 = load_key::<SHOULD_HASH>(bytes, 0, multiplier, addend);
    let mut i: usize = 1;
    while i < 4
        invariant
            bytes@.len() >= 7,
            1 <= i <= 4,
            0 <= min_idx < i,
            min_val == window_key(bytes@, min_idx as int, SHOULD_HASH, multiplier, addend),
            forall|j: int|
                0 <= j < i ==> min_val <= #[trigger] window_key(
                    bytes@,
                    j,
                    SHOULD_HASH,
                    multiplier,
                    addend,
                ),
            forall|j: int|
                0 <= j < min_idx ==> min_val < #[trigger] window_key(
                    bytes@,
                    j,
                    SHOULD_HASH,
                    multiplier,
                    addend,
                ),
        decreases 4 - i,
    {
        let v: u32 = load_key::<SHOULD_HASH>(bytes, i, multiplier, addend);
        if v < min_val {
            min_val = v;
            min_idx = i;
        }
        i += 1;
    }
    proof {
        assert forall|j: int| 0 <= j < 4 implies #[trigger] window_key(
            bytes@.take(7),
            j,
            SHOULD_HASH,
            multiplier,
            addend,
        ) == window_key(bytes@, j, SHOULD_HASH, multiplier, addend) by {}
    }
    min_idx
}

/// Whether `k` is the length of the longest common prefix of `a` and `b`.
pub open spec fn is_common_prefix_len(a: Seq<u8>, b: Seq<u8>, k: int) -> bool {
    &&& 0 <= k <= a.len()
    &&& k <= b.len()
    &&& forall|i: int| 0 <= i < k ==> a[i] == b[i]
    &&& (k < a.len() && k < b.len()) ==> a[k] != b[k]
}

/// Whether `k` is the length of the longest prefix of `data` that holds only
/// `byte`.
pub open spec fn is_byte_run_len(data: Seq<u8>, byte: u8, k: int) -> bool {
    &&& 0 <= k <= data.len()
    &&& forall|i: int| 0 <= i < k ==> data[i] == byte
    &&& k < data.len() ==> data[k] != byte
}

/// Byte `k` of the word `x`, counted from the least significant one.
pub open spec fn word_byte(x: u64, k: int) -> u8 {
    ((x >> ((8 * k) as u64)) & 0xff) as u8
}

proof fn lemma_pack_bytes(b0: u8, b1: u8, b2: u8, b3: u8, b4: u8, b5: u8, b6: u8, b7: u8, x: u64)
    by (bit_vector)
    requires
        x == (b0 as u64) | (b1 as u64) << 8 | (b2 as u64) << 16 | (b3 as u64) << 24 | (b4 as u64)
            << 32 | (b5 as u64) << 40 | (b6 as u64) << 48 | (b7 as u64) << 56,
    ensures
        (x >> 0) & 0xff == b0,
        (x >> 8) & 0xff == b1,
        (x >> 16) & 0xff == b2,
        (x >> 24) & 0xff == b3,
        (x >> 32) & 0xff == b4,
        (x >> 40) & 0xff == b5,
        (x >> 48) & 0xff == b6,
        (x >> 56) & 0xff == b7,
{
}

/// The eight bytes from `i` on, packed into a word, first byte lowest.
pub(crate) fn load_word(bytes: &[u8], i: usize) -> (x: u64)
    requires
        i + 8 <= bytes.len(),
    ensures
        forall|k: int| 0 <= k < 8 ==> #[trigger] word_byte(x, k) == bytes@[i + k],
{
    let x: u64 = (bytes[i] as u64) | (bytes[i + 1] as u64) << 8 | (bytes[i + 2] as u64) << 16 | (
    bytes[i + 3] as u64) << 24 | (bytes[i + 4] as u64) << 32 | (bytes[i + 5] as u64) << 40 | (
    bytes[i + 6] as u64) << 48 | (bytes[i + 7] as u64) << 56;
    proof {
        let b = bytes@;
        lemma_pack_bytes(
            b[i as int],
            b[i + 1],
            b[i + 2],
            b[i + 3],
            b[i + 4],
            b[i + 5],
            b[i + 6],
            b[i + 7],
            x,
        );
        assert forall|k: int| 0 <= k < 8 implies #[trigger] word_byte(x, k) == b[i + k] by {
            if k == 0 {
            } else if k == 1 {
            } else if k == 2 {
            } else if k == 3 {
            } else if k == 4 {
            } else if k == 5 {
            } else if k == 6 {
            } else {
                assert(k == 7);
            }
        }
    }
    x
}

proof fn lemma_xor_low_bytes(x: u64, y: u64, t: u64, s: u64)
    by (bit_vector)
    requires
        t < 64,
        (x ^ y) << ((64 - t) as u64) == 0,
        s <= 56,
        s + 8 <= t,
    ensures
        (x >> s) & 0xff == (y >> s) & 0xff,
{
}

proof fn lemma_xor_first_byte(x: u64, y: u64, t: u64, s: u64)
    by (bit_vector)
    requires
        t < 64,
        ((x ^ y) >> t) & 1u64 == 1u64,
        s <= t,
        t < s + 8,
        s <= 56,
    ensures
        (x >> s) & 0xff != (y >> s) & 0xff,
{
}

proof fn lemma_byte_fits(x: u64)
    by (bit_vector)
    ensures
        x & 0xff < 256,
{
}

/// The number of trailing zero bits of `x ^ y`, divided by eight, is the
/// position of the first byte in which the words differ.
pub(crate) proof fn lemma_first_differing_byte(x: u64, y: u64)
    requires
        x ^ y != 0,
    ensures
        (x ^ y).trailing_zeros() < 64,
        forall|k: int|
            0 <= k < (x ^ y).trailing_zeros() as int / 8 ==> #[trigger] word_byte(x, k)
                == word_byte(y, k),
        word_byte(x, (x ^ y).trailing_zeros() as int / 8) != word_byte(
            y,
            (x ^ y).trailing_zeros() as int / 8,
        ),
{
    let d = x ^ y;
    axiom_u64_trailing_zeros(d);
    let t: u64 = d.trailing_zeros() as u64;
    let q: int = t as int / 8;
    assert forall|k: int| 0 <= k < q implies #[trigger] word_byte(x, k) == word_byte(y, k) by {
        lemma_xor_low_bytes(x, y, t, (8 * k) as u64);
    }
    lemma_xor_first_byte(x, y, t, (8 * q) as u64);
    lemma_byte_fits(x >> ((8 * q) as u64));
    lemma_byte_fits(y >> ((8 * q) as u64));
}

/// Two words are equal exactly if they differ in no bit.
pub(crate) proof fn lemma_equal_words(x: u64, y: u64)
    by (bit_vector)
    ensures
        x ^ y == 0 <==> x == y,
{
}

/// Length of the common prefix of `a` and `b` (compared over the shorter one).
///
/// `common_prefix_len(&data[s + u..], &data[s..])` is exactly how far `data`
/// stays periodic with period `u` from position `s`. The scan goes a word at a
/// time.
pub fn common_prefix_len(a: &[u8], b: &[u8]) -> (len: usize)
    ensures
        is_common_prefix_len(a@, b@, len as int),
        len <= a@.len(),
        len <= b@.len(),
        a@.take(len as int) == b@.take(len as int),
        len < a@.len() && len < b@.len() ==> a@[len as int] != b@[len as int],
{
    let n: usize = if a.len() < b.len() {
        a.len()
    } else {
        b.len()
    };
    let mut i: usize = 0;
    while n - i >= 8
        invariant
            n <= a@.len(),
            n <= b@.len(),
            i <= n,
            forall|j: int| 0 <= j < i ==> a@[j] == b@[j],
        decreases n - i,
    {
        let x: u64 = load_word(a, i);
        let y: u64 = load_word(b, i);
        let diff: u64 = x ^ y;
        proof {
            lemma_equal_words(x, y);
        }
        if diff != 0 {
            proof {
                lemma_first_differing_byte(x, y);
                let q = diff.trailing_zeros() as int / 8;
                assert forall|j: int| i <= j < i + q implies a@[j] == b@[j] by {
                    assert(word_byte(x, j - i) == word_byte(y, j - i));
                }
                assert(a@[i + q] != b@[i + q]);
            }
            return i + (diff.trailing_zeros() / 8) as usize;
        }
        proof {
            assert forall|j: int| i <= j < i + 8 implies a@[j] == b@[j] by {
                assert(word_byte(x, j - i) == a@[i + (j - i)]);
                assert(word_byte(y, j - i) == b@[i + (j - i)]);
            }
        }
        i += 8;
    }
    while i < n && a[i] == b[i]
        invariant
            n <= a@.len(),
            n <= b@.len(),
            i <= n,
            forall|j: int| 0 <= j < i ==> a@[j] == b@[j],
        decreases n - i,
    {
        i += 1;
    }
    i
}

/// Length of the prefix of `data` consisting entirely of `byte`.
///
/// The broadcast form of the scan, for constant-byte runs like zero-fill.
pub fn byte_run_len(data: &[u8], byte: u8) -> (len: usize)
    ensures
        is_byte_run_len(data@, byte, len as int),
        len <= data@.len(),
        forall|i: int| 0 <= i < len ==> data@[i] == byte,
        len < data@.len() ==> data@[len as int] != byte,
{
    let rep_bytes: [u8; 8] = [byte, byte, byte, byte, byte, byte, byte, byte];
    let rep: u64 = load_word(&rep_bytes, 0);
    let n: usize = data.len();
    let mut i: usize = 0;
    while n - i >= 8
        invariant
            n == data@.len(),
            i <= n,
            forall|k: int| 0 <= k < 8 ==> #[trigger] word_byte(rep, k) == byte,
            forall|j: int| 0 <= j < i ==> data@[j] == byte,
        decreases n - i,
    {
        let x: u64 = load_word(data, i);
        let diff: u64 = x ^ rep;
        proof {
            lemma_equal_words(x, rep);
        }
        if diff != 0 {
            proof {
                lemma_first_differing_byte(x, rep);
                let q = diff.trailing_zeros() as int / 8;
                assert forall|j: int| i <= j < i + q implies data@[j] == byte by {
                    assert(word_byte(x, j - i) == word_byte(rep, j - i));
                }
                assert(data@[i + q] != byte);
            }
            return i + (diff.trailing_zeros() / 8) as usize;
        }
        proof {
            assert forall|j: int| i <= j < i + 8 implies data@[j] == byte by {
                assert(word_byte(x, j - i) == data@[i + (j - i)]);
                assert(word_byte(rep, j - i) == byte);
            }
        }
        i += 8;
    }
    while i < n && data[i] == byte
        invariant
            n == data@.len(),
            i <= n,
            forall|j: int| 0 <= j < i ==> data@[j] == byte,
        decreases n - i,
    {
        i += 1;
    }
    i
}

} // verus!
