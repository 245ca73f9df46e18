//! What the terms of the contracts come to, written out in plain arithmetic on
//! the bytes.
//!
//! Each law here ties a term that contracts speak of (the key of a window, the
//! length of a chunk, the sure repeats, a segment, the acceptable sizes) to its
//! inputs without the help of other such terms.

use crate::capi::{default_rule, next_chunk};
use crate::caterpillar::Segment;
use crate::laws::{
    law_chunks_resume_at_boundary, law_window_decides, lemma_chunks_step, lemma_expand_longer,
    lemma_expand_run, lemma_first_of_expanded, lemma_period_end_bounds, lemma_run,
    lemma_run_of_expanded, lemma_run_skip, lemma_segment_next,
};
use crate::mincdc::{buffer_size, valid_sizes, Cdc, Error, MinCdc4, MinCdcHash4};
use crate::model::{
    coalesce, contiguous, expand, first_segment, lemma_repeat_len, lemma_run_len_bounds,
    period_end, run_len, sure_repeats, ChunkView, Rule, RunState, SegmentOutcome, SegmentView,
};
use crate::scalar::{first_min, is_first_min, lemma_first_min_exists, window_key};
use vstd::prelude::*;

verus! {

/// The key of a window is its little-endian value: the number below `2^32` whose
/// bytes, from the least significant one on, are those of the window. Hashed, it
/// is that number times the multiplier plus the addend, modulo `2^32`.
pub proof fn law_key_of_window(b: Seq<u8>, i: int, multiplier: u32, addend: u32, v: int)
    requires
        0 <= i,
        i + 4 <= b.len(),
        0 <= v < 0x1_0000_0000,
        v % 0x100 == b[i],
        v / 0x100 % 0x100 == b[i + 1],
        v / 0x1_0000 % 0x100 == b[i + 2],
        v / 0x100_0000 % 0x100 == b[i + 3],
    ensures
        window_key(b, i, false, multiplier, addend) == v,
        window_key(b, i, true, multiplier, addend) == (v * multiplier + addend) % 0x1_0000_0000,
{
}

/// Every window has such a value, so the law above speaks of all windows.
pub proof fn law_window_has_value(b: Seq<u8>, i: int, multiplier: u32, addend: u32)
    requires
        0 <= i,
        i + 4 <= b.len(),
    ensures
        ({
            let v = window_key(b, i, false, multiplier, addend);
            &&& 0 <= v < 0x1_0000_0000
            &&& v % 0x100 == b[i]
            &&& v / 0x100 % 0x100 == b[i + 1]
            &&& v / 0x1_0000 % 0x100 == b[i + 2]
            &&& v / 0x100_0000 % 0x100 == b[i + 3]
            &&& v == b[i] + 0x100 * b[i + 1] + 0x1_0000 * b[i + 2] + 0x100_0000 * b[i + 3]
            &&& window_key(b, i, true, multiplier, addend) == (v * multiplier + addend)
                % 0x1_0000_0000
        }),
{
}

/// An odd factor can be cancelled modulo a power of two.
proof fn lemma_cancel_odd(m: int, d: int, k: nat)
    requires
        m % 2 == 1,
        (m * d) % pow2(k) == 0,
    ensures
        d % pow2(k) == 0,
    decreases k,
{
    let p = pow2(k);
    lemma_pow2_positive(k);
    if k > 0 {
        let h = pow2((k - 1) as nat);
        lemma_pow2_positive((k - 1) as nat);
        let q = (m * d) / p;
        assert(m * d == p * q) by {
            vstd::arithmetic::div_mod::lemma_fundamental_div_mod(m * d, p);
        }
        assert(m * d == 2 * (h * q)) by (nonlinear_arith)
            requires
                m * d == p * q,
                p == 2 * h,
        ;
        let s = m / 2;
        assert(m * d == 2 * (s * d) + d) by (nonlinear_arith)
            requires
                m == 2 * s + 1,
        ;
        assert(d % 2 == 0);
        let e = d / 2;
        assert(m * d == 2 * (m * e)) by (nonlinear_arith)
            requires
                d == 2 * e,
        ;
        assert(m * e == h * q);
        vstd::arithmetic::div_mod::lemma_fundamental_div_mod_converse(m * e, h, q, 0);
        lemma_cancel_odd(m, e, (k - 1) as nat);
        let t = e / h;
        vstd::arithmetic::div_mod::lemma_fundamental_div_mod(e, h);
        assert(d == p * t) by (nonlinear_arith)
            requires
                d == 2 * e,
                e == h * t,
                p == 2 * h,
        ;
        vstd::arithmetic::div_mod::lemma_fundamental_div_mod_converse(d, p, t, 0);
    }
}

/// Powers of two.
spec fn pow2(k: nat) -> int
    decreases k,
{
    if k == 0 {
        1
    } else {
        2 * pow2((k - 1) as nat)
    }
}

proof fn lemma_pow2_positive(k: nat)
    ensures
        pow2(k) > 0,
    decreases k,
{
    if k > 0 {
        lemma_pow2_positive((k - 1) as nat);
    }
}

/// Different windows have different keys, raw or hashed with an odd multiplier:
/// no window is favored, and none is confused with another.
pub proof fn law_keys_tell_windows_apart(
    b: Seq<u8>,
    i: int,
    c: Seq<u8>,
    j: int,
    hashed: bool,
    multiplier: u32,
    addend: u32,
)
    requires
        0 <= i,
        i + 4 <= b.len(),
        0 <= j,
        j + 4 <= c.len(),
        multiplier % 2 == 1,
    ensures
        window_key(b, i, hashed, multiplier, addend) == window_key(
            c,
            j,
            hashed,
            multiplier,
            addend,
        ) <==> b.subrange(i, i + 4) == c.subrange(j, j + 4),
{
    let x = window_key(b, i, false, multiplier, addend);
    let y = window_key(c, j, false, multiplier, addend);
    law_window_has_value(b, i, multiplier, addend);
    law_window_has_value(c, j, multiplier, addend);
    let s = b.subrange(i, i + 4);
    let t = c.subrange(j, j + 4);
    if s == t {
        assert(s[0] == b[i] && s[1] == b[i + 1] && s[2] == b[i + 2] && s[3] == b[i + 3]);
        assert(t[0] == c[j] && t[1] == c[j + 1] && t[2] == c[j + 2] && t[3] == c[j + 3]);
    } else {
        if x == y {
            assert forall|k: int| 0 <= k < 4 implies s[k] == t[k] by {
                if k == 0 {
                } else if k == 1 {
                } else if k == 2 {
                } else {
                    assert(k == 3);
                }
            }
            assert(s =~= t);
        }
        if hashed && window_key(b, i, true, multiplier, addend) == window_key(
            c,
            j,
            true,
            multiplier,
            addend,
        ) {
            let m = multiplier as int;
            let n = 0x1_0000_0000int;
            let p = x * m + addend;
            let q = y * m + addend;
            vstd::arithmetic::div_mod::lemma_fundamental_div_mod(p, n);
            vstd::arithmetic::div_mod::lemma_fundamental_div_mod(q, n);
            let d = x - y;
            assert(m * d == p - q) by (nonlinear_arith)
                requires
                    p == x * m + addend,
                    q == y * m + addend,
                    d == x - y,
            ;
            assert(m * d == n * (p / n - q / n)) by (nonlinear_arith)
                requires
                    m * d == p - q,
                    p == n * (p / n) + p % n,
                    q == n * (q / n) + q % n,
                    p % n == q % n,
            ;
            assert(pow2(32) == n) by {
                reveal_with_fuel(pow2, 33);
            }
            vstd::arithmetic::div_mod::lemma_fundamental_div_mod_converse(
                m * d,
                n,
                p / n - q / n,
                0,
            );
            lemma_cancel_odd(m, d, 32);
            assert(d == 0);
        }
    }
}

/// The first minimal window, written out.
pub proof fn law_first_min(
    b: Seq<u8>,
    hashed: bool,
    multiplier: u32,
    addend: u32,
    k: int,
)
    ensures
        is_first_min(b, hashed, multiplier, addend, k) <==> {
            &&& 0 <= k
            &&& k + 4 <= b.len()
            &&& forall|j: int|
                0 <= j && j + 4 <= b.len() ==> {
                    &&& window_key(b, k, hashed, multiplier, addend) <= #[trigger] window_key(
                        b,
                        j,
                        hashed,
                        multiplier,
                        addend,
                    )
                    &&& j < k ==> window_key(b, k, hashed, multiplier, addend) < window_key(
                        b,
                        j,
                        hashed,
                        multiplier,
                        addend,
                    )
                }
        },
        b.len() >= 4 ==> is_first_min(
            b,
            hashed,
            multiplier,
            addend,
            first_min(b, hashed, multiplier, addend),
        ),
{
    if b.len() >= 4 {
        lemma_first_min_exists(b, hashed, multiplier, addend);
    }
}

/// The length of the next chunk for any boundary selector, written out: nothing
/// can be decided of no data, or of at most `max` bytes before the end of input;
/// at most `min` bytes are a final chunk; else the splitpoint is chosen from one
/// window before `min` on, up to `max` or the end.
pub proof fn law_chunk_len<C: Cdc>(rule: Rule<C>, avail: Seq<u8>, eof: bool)
    ensures
        ({
            let n = avail.len() as int;
            let w = rule.cdc.window() as int;
            let start = if rule.min > w {
                rule.min - w
            } else {
                0
            };
            let end = if rule.max < n {
                rule.max as int
            } else {
                n
            };
            &&& rule.chunk_len(avail, eof) is None <==> n == 0 || (!eof && n <= rule.max)
            &&& rule.chunk_len(avail, eof) matches Some(len) ==> len == (if n <= rule.min {
                n
            } else {
                start + rule.cdc.split(avail.subrange(start, end))
            })
        }),
{
}

/// The limits of a rule make sense if the maximum is not zero and the minimum does
/// not exceed it.
pub proof fn law_valid_rule<C>(rule: Rule<C>)
    ensures
        rule.valid() <==> rule.min <= rule.max && rule.max > 0,
{
}

/// The `w` bytes of `b` from `t` on.
pub open spec fn window_at(b: Seq<u8>, t: int, w: int) -> Seq<u8> {
    b.subrange(t, t + w)
}

/// For a boundary selector of any window size `w` that splits behind the first
/// window with the least key, a chunk ends at the documented boundary: of all
/// positions `i` with `min <= i <= max` that have a whole window before them, the
/// first one whose window `bytes[i - w..i]` has the least key.
pub proof fn law_boundary_for_any_window<C: Cdc>(
    rule: Rule<C>,
    avail: Seq<u8>,
    eof: bool,
    key: spec_fn(Seq<u8>) -> int,
)
    requires
        rule.min <= rule.max,
        rule.max > 0,
        rule.max >= rule.cdc.window(),
        avail.len() >= rule.cdc.window(),
        avail.len() > rule.min,
        eof || avail.len() > rule.max,
        forall|b: Seq<u8>, t: int|
            #![trigger rule.cdc.split(b), window_at(b, t, rule.cdc.window() as int)]
            0 <= t && t + rule.cdc.window() <= b.len() ==> {
                let w = rule.cdc.window() as int;
                let best = rule.cdc.split(b) - w;
                &&& key(window_at(b, best, w)) <= key(window_at(b, t, w))
                &&& t < best ==> key(window_at(b, best, w)) < key(window_at(b, t, w))
            },
    ensures
        rule.chunk_len(avail, eof) matches Some(i) && {
            let w = rule.cdc.window() as int;
            &&& rule.min <= i <= rule.max
            &&& w <= i <= avail.len()
            &&& forall|t: int|
                #![trigger window_at(avail, t, w)]
                0 <= t && rule.min <= t + w <= rule.max && t + w <= avail.len() ==> {
                    &&& key(window_at(avail, i - w, w)) <= key(window_at(avail, t, w))
                    &&& t + w < i ==> key(window_at(avail, i - w, w)) < key(
                        window_at(avail, t, w),
                    )
                }
        },
{
    let w = rule.cdc.window() as int;
    let n = avail.len() as int;
    let start = if rule.min > w {
        rule.min - w
    } else {
        0
    };
    let end = if rule.max < n {
        rule.max as int
    } else {
        n
    };
    let search = avail.subrange(start, end);
    rule.cdc.contract(search);
    law_chunk_len(rule, avail, eof);
    let best = rule.cdc.split(search) - w;
    let i = start + w + best;
    assert(window_at(search, best, w) =~= window_at(avail, i - w, w));
    assert forall|t: int|
        #![trigger window_at(avail, t, w)]
        0 <= t && rule.min <= t + w <= rule.max && t + w <= avail.len() implies {
        &&& key(window_at(avail, i - w, w)) <= key(window_at(avail, t, w))
        &&& t + w < i ==> key(window_at(avail, i - w, w)) < key(window_at(avail, t, w))
    } by {
        assert(window_at(search, t - start, w) =~= window_at(avail, t, w));
    }
}

/// The key of a window does not depend on what stands around it.
proof fn lemma_key_in_part(
    b: Seq<u8>,
    start: int,
    end: int,
    t: int,
    hashed: bool,
    multiplier: u32,
    addend: u32,
)
    requires
        0 <= start <= end <= b.len(),
        0 <= t,
        start + t + 4 <= end,
    ensures
        window_key(b.subrange(start, end), t, hashed, multiplier, addend) == window_key(
            b,
            start + t,
            hashed,
            multiplier,
            addend,
        ),
{
}

/// The documented boundary of both selectors: a chunk ends at the first `i` with
/// `min <= i <= max` for which the key of `bytes[i - 4..i]` is minimal.
proof fn lemma_boundary_by_key<C: Cdc>(
    rule: Rule<C>,
    avail: Seq<u8>,
    eof: bool,
    hashed: bool,
    multiplier: u32,
    addend: u32,
    j: int,
)
    requires
        rule.valid(),
        rule.max >= 4,
        avail.len() >= 4,
        avail.len() > rule.min,
        eof || avail.len() > rule.max,
        rule.min <= j <= rule.max,
        4 <= j <= avail.len(),
        rule.cdc.window() == 4,
        forall|b: Seq<u8>|
            b.len() >= 4 ==> is_first_min(
                b,
                hashed,
                multiplier,
                addend,
                (#[trigger] rule.cdc.split(b)) - 4,
            ),
    ensures
        rule.chunk_len(avail, eof) matches Some(i) && {
            &&& rule.min <= i <= rule.max
            &&& 4 <= i <= avail.len()
            &&& window_key(avail, i - 4, hashed, multiplier, addend) <= window_key(
                avail,
                j - 4,
                hashed,
                multiplier,
                addend,
            )
            &&& j < i ==> window_key(avail, i - 4, hashed, multiplier, addend) < window_key(
                avail,
                j - 4,
                hashed,
                multiplier,
                addend,
            )
        },
{
    let n = avail.len() as int;
    let start = if rule.min > 4 {
        rule.min - 4
    } else {
        0
    };
    let end = if rule.max < n {
        rule.max as int
    } else {
        n
    };
    let search = avail.subrange(start, end);
    law_chunk_len(rule, avail, eof);
    let k = rule.cdc.split(search) - 4;
    assert(is_first_min(search, hashed, multiplier, addend, k));
    let t = j - 4 - start;
    lemma_key_in_part(avail, start, end, k, hashed, multiplier, addend);
    lemma_key_in_part(avail, start, end, t, hashed, multiplier, addend);
    assert(window_key(search, k, hashed, multiplier, addend) <= window_key(
        search,
        t,
        hashed,
        multiplier,
        addend,
    ));
}

/// With [`MinCdc4`] a chunk ends at the first `i` between the smallest and the
/// largest allowed position for which the little-endian value of the four bytes
/// before it is minimal: no allowed `j` has a smaller one, and none before `i` an
/// equal one.
pub proof fn law_mincdc4_picks_least_value(
    rule: Rule<MinCdc4>,
    avail: Seq<u8>,
    eof: bool,
    j: int,
)
    requires
        rule.min <= rule.max,
        rule.max >= 4,
        avail.len() >= 4,
        avail.len() > rule.min,
        eof || avail.len() > rule.max,
        rule.min <= j <= rule.max,
        4 <= j <= avail.len(),
    ensures
        rule.chunk_len(avail, eof) matches Some(i) && {
            let a = avail[i - 4] + 0x100 * avail[i - 3] + 0x1_0000 * avail[i - 2] + 0x100_0000
                * avail[i - 1];
            let c = avail[j - 4] + 0x100 * avail[j - 3] + 0x1_0000 * avail[j - 2] + 0x100_0000
                * avail[j - 1];
            &&& rule.min <= i <= rule.max
            &&& 4 <= i <= avail.len()
            &&& a <= c
            &&& j < i ==> a < c
        },
{
    assert forall|b: Seq<u8>| b.len() >= 4 implies is_first_min(
        b,
        false,
        1,
        0,
        (#[trigger] rule.cdc.split(b)) - 4,
    ) by {
        lemma_first_min_exists(b, false, 1, 0);
    }
    lemma_boundary_by_key(rule, avail, eof, false, 1, 0, j);
    let i = rule.chunk_len(avail, eof)->0;
    law_window_has_value(avail, i - 4, 1, 0);
    law_window_has_value(avail, j - 4, 1, 0);
}

/// With [`MinCdcHash4`] a chunk ends at the first `i` between the smallest and the
/// largest allowed position for which the hash of the four bytes before it is
/// minimal, where the hash of their little-endian value `v` is
/// `(v * multiplier + addend) mod 2^32`.
pub proof fn law_mincdchash4_picks_least_hash(
    rule: Rule<MinCdcHash4>,
    avail: Seq<u8>,
    eof: bool,
    j: int,
)
    requires
        rule.min <= rule.max,
        rule.max >= 4,
        avail.len() >= 4,
        avail.len() > rule.min,
        eof || avail.len() > rule.max,
        rule.min <= j <= rule.max,
        4 <= j <= avail.len(),
    ensures
        rule.chunk_len(avail, eof) matches Some(i) && {
            let (multiplier, addend) = rule.cdc.params();
            let a = avail[i - 4] + 0x100 * avail[i - 3] + 0x1_0000 * avail[i - 2] + 0x100_0000
                * avail[i - 1];
            let c = avail[j - 4] + 0x100 * avail[j - 3] + 0x1_0000 * avail[j - 2] + 0x100_0000
                * avail[j - 1];
            &&& rule.min <= i <= rule.max
            &&& 4 <= i <= avail.len()
            &&& (a * multiplier + addend) % 0x1_0000_0000 <= (c * multiplier + addend)
                % 0x1_0000_0000
            &&& j < i ==> (a * multiplier + addend) % 0x1_0000_0000 < (c * multiplier + addend)
                % 0x1_0000_0000
        },
{
    let (multiplier, addend) = rule.cdc.params();
    assert forall|b: Seq<u8>| b.len() >= 4 implies is_first_min(
        b,
        true,
        multiplier,
        addend,
        (#[trigger] rule.cdc.split(b)) - 4,
    ) by {
        lemma_first_min_exists(b, true, multiplier, addend);
    }
    lemma_boundary_by_key(rule, avail, eof, true, multiplier, addend, j);
    let i = rule.chunk_len(avail, eof)->0;
    law_window_has_value(avail, i - 4, multiplier, addend);
    law_window_has_value(avail, j - 4, multiplier, addend);
}

/// The acceptable sizes, written out: they are refused only if the minimum
/// exceeds the maximum, the maximum is zero, or it exceeds `2^32 - 2`. The buffer
/// is 4 MiB, a decision window and one byte, and four times the minimum.
pub proof fn law_acceptable_sizes(min_size: usize, max_size: usize)
    ensures
        valid_sizes(min_size, max_size) <==> !(min_size > max_size || max_size == 0 || max_size
            > 0xffff_fffe),
        buffer_size(min_size, max_size) == 4 * 1024 * 1024 + max_size + 1 + 4 * min_size,
{
}

/// The sure repeats of a first chunk of `unit_len` bytes, written out: `k` of them
/// are claimed exactly if the decision window of the `k`-th one ends before the
/// last byte of the data, and up to there the data repeats itself with that
/// period. None is missed, and none claimed in vain.
pub proof fn law_sure_repeats(tail: Seq<u8>, unit_len: nat, max: nat, k: nat)
    requires
        k >= 1,
    ensures
        k <= sure_repeats(tail, unit_len, max) <==> {
            &&& 0 < unit_len
            &&& k * unit_len + max < tail.len()
            &&& forall|j: int|
                unit_len <= j < k * unit_len + max ==> tail[j] == #[trigger] tail[j - unit_len]
        },
{
    let u = unit_len as int;
    if u == 0 || u >= tail.len() {
        if u > 0 {
            assert(k * u >= u) by (nonlinear_arith)
                requires
                    k >= 1,
                    u > 0,
            ;
        }
    } else {
        let end = period_end(tail, unit_len, unit_len) as int;
        lemma_period_end_bounds(tail, unit_len, unit_len);
        let limit = if end < tail.len() {
            end
        } else {
            tail.len() - 1
        };
        let reach = k * u + max;
        assert(k * u >= u) by (nonlinear_arith)
            requires
                k >= 1,
                u > 0,
        ;
        if limit >= max {
            let r = (limit - max) / u;
            let rem = (limit - max) % u;
            vstd::arithmetic::div_mod::lemma_fundamental_div_mod(limit - max, u);
            vstd::arithmetic::div_mod::lemma_mod_bound(limit - max, u);
            assert(k <= r <==> k * u <= limit - max) by (nonlinear_arith)
                requires
                    limit - max == u * r + rem,
                    0 <= rem < u,
            ;
            assert(r >= 0) by (nonlinear_arith)
                requires
                    limit - max == u * r + rem,
                    0 <= rem < u,
                    limit >= max,
            ;
        }
        assert(k <= sure_repeats(tail, unit_len, max) <==> reach <= limit);
        if reach < tail.len() && reach > end {
            assert(tail[end] != tail[end - u]);
        }
    }
}

/// Every chunk has the length that the rule gives at its start, holds the bytes
/// that stand there, and is followed by the next one at its end. The chunks go on
/// as long as one can be decided.
pub proof fn law_chunks_follow_rule<C: Cdc>(
    rule: Rule<C>,
    data: Seq<u8>,
    base: nat,
    eof: bool,
    i: int,
)
    requires
        rule.min <= rule.max,
        rule.max > 0,
    ensures
        ({
            let chunks = rule.chunks(data, base, eof);
            &&& chunks.len() == 0 <==> rule.chunk_len(data, eof) is None
            &&& chunks.len() > 0 ==> chunks[0].offset == base
            &&& 0 <= i < chunks.len() ==> {
                let from = chunks[i].offset - base;
                let to = from + chunks[i].bytes.len();
                &&& 0 <= from < to <= data.len()
                &&& rule.chunk_len(data.skip(from), eof) == Some(chunks[i].bytes.len())
                &&& chunks[i].bytes == data.subrange(from, to)
                &&& i + 1 < chunks.len() ==> chunks[i + 1].offset == base + to
                &&& i + 1 == chunks.len() ==> rule.chunk_len(data.skip(to), eof) is None
            }
        }),
{
    lemma_chunks_step(rule, data, base, eof);
    let chunks = rule.chunks(data, base, eof);
    if 0 <= i < chunks.len() {
        law_chunks_resume_at_boundary(rule, data, base, eof, i);
        let at = chunks[i].offset;
        let from = at - base;
        let rest = data.skip(from);
        assert(chunks.skip(i)[0] == chunks[i]);
        lemma_chunks_step(rule, rest, at, eof);
        let len = rule.chunk_len(rest, eof)->0;
        assert(chunks[i].bytes =~= data.subrange(from, from + len));
        assert(rest.skip(len as int) =~= data.skip(from + len));
        assert(chunks.skip(i).skip(1) =~= chunks.skip(i + 1));
        lemma_chunks_step(rule, rest.skip(len as int), at + len, eof);
        if i + 1 < chunks.len() {
            assert(chunks.skip(i + 1)[0] == chunks[i + 1]);
        }
    }
}

/// The segment that the first chunk starts, written out: it starts there, it has
/// that chunk as its unit, all of its chunks are identical, and the chunk behind
/// it, if there is one, is not.
pub proof fn law_first_segment(chunks: Seq<ChunkView>)
    requires
        chunks.len() > 0,
    ensures
        ({
            let segment = first_segment(chunks);
            &&& segment.offset == chunks[0].offset
            &&& segment.unit == chunks[0].bytes
            &&& 1 <= segment.count <= chunks.len()
            &&& forall|k: int|
                0 <= k < segment.count ==> (#[trigger] chunks[k]).bytes == chunks[0].bytes
            &&& segment.count < chunks.len() ==> chunks[segment.count as int].bytes
                != chunks[0].bytes
            &&& coalesce(chunks).len() > 0
            &&& coalesce(chunks)[0] == segment
            &&& coalesce(chunks).skip(1) == coalesce(chunks.skip(segment.count as int))
        }),
{
    let unit = chunks[0].bytes;
    let count = run_len(chunks, unit);
    lemma_run_len_bounds(chunks, unit);
    assert forall|k: int| 0 <= k < count implies (#[trigger] chunks[k]).bytes == unit by {
        lemma_run_skip(chunks, unit, k as nat);
        lemma_run_len_bounds(chunks.skip(k), unit);
        assert(chunks.skip(k)[0] == chunks[k]);
    }
    if count < chunks.len() {
        lemma_run_skip(chunks, unit, count);
        lemma_run_len_bounds(chunks.skip(count as int), unit);
        assert(chunks.skip(count as int)[0] == chunks[count as int]);
    }
    assert(coalesce(chunks).skip(1) =~= coalesce(chunks.skip(count as int)));
}

/// No chunks make no segments.
pub proof fn law_no_chunks_no_segments(chunks: Seq<ChunkView>)
    ensures
        coalesce(chunks).len() == 0 <==> chunks.len() == 0,
{
}

/// The chunks that a segment stands for, the number of bytes it covers, and these
/// bytes, written out.
pub proof fn law_segment_stands_for(segment: SegmentView, i: int)
    ensures
        segment.len() == segment.unit.len() * segment.count,
        segment.bytes().len() == segment.unit.len() * segment.count,
        expand(segment).len() == segment.count,
        0 <= i < segment.count ==> {
            let u = segment.unit.len();
            &&& expand(segment)[i].bytes == segment.unit
            &&& expand(segment)[i].offset == segment.offset + u * i
            &&& 0 <= u * i <= u * (i + 1) <= segment.bytes().len()
            &&& segment.bytes().subrange((u * i) as int, (u * (i + 1)) as int) == segment.unit
        },
    decreases segment.count,
{
    let u = segment.unit.len() as int;
    lemma_repeat_len(segment.unit, segment.count);
    if 0 <= i < segment.count {
        let q = (segment.count - 1) as nat;
        let front = SegmentView { count: q, ..segment };
        lemma_repeat_len(segment.unit, q);
        assert(0 <= u * i <= u * (i + 1) && u * (i + 1) == u * i + u && u * (i + 1) <= u
            * segment.count) by (nonlinear_arith)
            requires
                0 <= i < segment.count,
                u >= 0,
        ;
        assert(u * segment.count == u * q + u) by (nonlinear_arith)
            requires
                segment.count == q + 1,
        ;
        let piece = segment.bytes().subrange(u * i, u * (i + 1));
        if i < q {
            law_segment_stands_for(front, i);
            assert(u * (i + 1) <= u * q) by (nonlinear_arith)
                requires
                    i + 1 <= q,
                    u >= 0,
            ;
            assert(piece =~= front.bytes().subrange(u * i, u * (i + 1)));
        } else {
            assert(piece =~= segment.unit);
        }
    }
}

/// A segment that a chunker hands out is not empty, is a caterpillar exactly if
/// it has two or more chunks, and ends within the range of offsets.
pub proof fn law_handed_out_segment(segment: Segment<'_>)
    ensures
        segment.wf() ==> {
            &&& segment@.unit.len() > 0
            &&& segment is Caterpillar <==> segment@.count >= 2
            &&& segment is Solo ==> segment@.count == 1
            &&& segment@.offset + segment@.unit.len() * segment@.count <= u64::MAX
        },
        match segment {
            Segment::Solo(chunk) => segment@ == (SegmentView {
                offset: chunk@.offset,
                unit: chunk@.bytes,
                count: 1,
            }),
            Segment::Caterpillar { offset, unit, count } => segment@ == (SegmentView {
                offset: offset as nat,
                unit: unit@,
                count: count as nat,
            }),
        },
{
}

/// What is left of `avail` behind `k` units of `u` bytes.
pub open spec fn behind_units(avail: Seq<u8>, u: nat, k: int) -> Seq<u8> {
    avail.skip(u * k)
}

/// The first segment of the chunks that can be decided from `avail`, written out:
/// at every unit of it the rule gives a chunk that is identical to the first one,
/// and behind it the rule gives none such.
pub proof fn law_first_segment_of_data<C: Cdc>(
    rule: Rule<C>,
    avail: Seq<u8>,
    base: nat,
    eof: bool,
)
    requires
        rule.min <= rule.max,
        rule.max > 0,
        rule.chunk_len(avail, eof) is Some,
    ensures
        ({
            let segment = first_segment(rule.chunks(avail, base, eof));
            let u = segment.unit.len();
            let rest = behind_units(avail, u, segment.count as int);
            &&& segment.offset == base
            &&& rule.chunk_len(avail, eof) == Some(u)
            &&& segment.unit == avail.take(u as int)
            &&& segment.count >= 1
            &&& u > 0
            &&& u * segment.count <= avail.len()
            &&& forall|k: int|
                0 <= k < segment.count ==> rule.chunk_len(
                    #[trigger] behind_units(avail, u, k),
                    eof,
                ) == Some(u) && behind_units(avail, u, k).take(u as int) == segment.unit
            &&& !(rule.chunk_len(rest, eof) == Some(u) && rest.take(u as int) == segment.unit)
        }),
{
    let all = rule.chunks(avail, base, eof);
    let segment = first_segment(all);
    let u = segment.unit.len();
    lemma_chunks_step(rule, avail, base, eof);
    rule.lemma_chunk_len_bounds(avail, eof);
    law_first_segment(all);
    lemma_run(rule, avail, base, eof, segment.unit, segment.count);
    assert forall|k: int| 0 <= k < segment.count implies rule.chunk_len(
        #[trigger] behind_units(avail, u, k),
        eof,
    ) == Some(u) && behind_units(avail, u, k).take(u as int) == segment.unit by {
        lemma_run(rule, avail, base, eof, segment.unit, k as nat);
        let at = behind_units(avail, u, k);
        lemma_chunks_step(rule, at, base + u * k as nat, eof);
        assert(all.skip(k)[0] == all[k]);
    }
    let rest = behind_units(avail, u, segment.count as int);
    lemma_chunks_step(rule, rest, base + u * segment.count, eof);
    if segment.count < all.len() {
        assert(all.skip(segment.count as int)[0] == all[segment.count as int]);
    }
}

/// The chunks are contiguous, also where not all can be decided.
proof fn lemma_contiguous<C: Cdc>(rule: Rule<C>, avail: Seq<u8>, base: nat, eof: bool)
    requires
        rule.valid(),
    ensures
        contiguous(rule.chunks(avail, base, eof), base),
    decreases avail.len(),
{
    lemma_chunks_step(rule, avail, base, eof);
    if let Some(len) = rule.chunk_len(avail, eof) {
        lemma_contiguous(rule, avail.skip(len as int), base + len, eof);
    }
}

/// One step of a chunker that keeps runs together, written out over the chunks it
/// has at hand: those of the run it holds, and those that can be decided from what
/// is pending. It hands out the first segment of these as soon as a chunk that is
/// not identical to the first one, or the end of input, shows that the run is
/// over; before that it asks for more; and it ends when there is nothing left.
/// What it does not hand out it keeps.
pub proof fn law_run_step<C: Cdc>(rule: Rule<C>, st: RunState)
    requires
        rule.min <= rule.max,
        rule.max > 0,
        st.stream.done ==> st.stream.pending.len() == 0,
        st.stream.offset + st.stream.pending.len() <= u64::MAX,
        st.held matches Some(run) ==> run.count > 0 && run.unit.len() > 0 && run.offset
            + run.unit.len() * run.count == st.stream.offset,
    ensures
        ({
            let (next, outcome) = st.run_next(rule);
            let all = st.held_chunks() + rule.chunks(
                st.stream.pending,
                st.stream.offset,
                st.stream.ended,
            );
            let kept = next.held_chunks() + rule.chunks(
                next.stream.pending,
                next.stream.offset,
                next.stream.ended,
            );
            let over = st.stream.ended || st.stream.done || exists|k: int|
                0 <= k < all.len() && (#[trigger] all[k]).bytes != all[0].bytes;
            &&& outcome is Segment <==> all.len() > 0 && over
            &&& outcome is End <==> all.len() == 0 && (st.stream.ended || st.stream.done)
            &&& outcome is NeedInput <==> !over
            &&& outcome !is Failed
            &&& outcome matches SegmentOutcome::Segment(segment) ==> segment == first_segment(all)
                && kept == all.skip(segment.count as int)
            &&& outcome !is Segment ==> kept == all
        }),
    decreases st.stream.pending.len(),
{
    let all = st.held_chunks() + rule.chunks(
        st.stream.pending,
        st.stream.offset,
        st.stream.ended,
    );
    let (stream, outcome) = st.stream.segment_next(rule);
    lemma_segment_next(rule, st.stream);
    lemma_contiguous(rule, st.stream.pending, st.stream.offset, st.stream.ended);
    let here = rule.chunks(st.stream.pending, st.stream.offset, st.stream.ended);
    rule.lemma_chunk_len_bounds(st.stream.pending, st.stream.ended);
    lemma_chunks_step(rule, st.stream.pending, st.stream.offset, st.stream.ended);
    match outcome {
        SegmentOutcome::Segment(segment) => {
            lemma_run_len_bounds(here, segment.unit);
            lemma_run(
                rule,
                st.stream.pending,
                st.stream.offset,
                st.stream.ended,
                segment.unit,
                segment.count,
            );
            lemma_expand_run(here, st.stream.offset, segment.unit, segment.count);
            let behind = rule.chunks(stream.pending, stream.offset, stream.ended);
            assert(expand(segment) + behind == here);
            match st.held {
                Some(run) if run.unit != segment.unit => {
                    lemma_run_of_expanded(run, here);
                    assert(here[0].bytes == segment.unit);
                    lemma_first_of_expanded(run, here);
                    assert(all[run.count as int] == here[0]);
                    assert(all[0] == expand(run)[0]);
                },
                held => {
                    let run = match held {
                        Some(run) => SegmentView { count: run.count + segment.count, ..run },
                        None => segment,
                    };
                    let next = RunState { stream, held: Some(run) };
                    if let Some(old_run) = held {
                        lemma_expand_longer(old_run, segment);
                        let u = old_run.unit.len();
                        assert(u * (old_run.count + segment.count) == u * old_run.count + u
                            * segment.count) by (nonlinear_arith);
                    }
                    assert(next.held_chunks() + behind =~= all);
                    law_run_step(rule, next);
                },
            }
        },
        SegmentOutcome::End => {
            if let Some(run) = st.held {
                let rest = Seq::<ChunkView>::empty();
                assert(all =~= expand(run) + rest);
                lemma_run_of_expanded(run, rest);
                lemma_first_of_expanded(run, rest);
            }
        },
        _ => {
            if !st.stream.done && !st.stream.wants_input(rule) {
                let segment = first_segment(here);
                lemma_run_len_bounds(here, segment.unit);
                lemma_run(
                    rule,
                    st.stream.pending,
                    st.stream.offset,
                    st.stream.ended,
                    segment.unit,
                    segment.count,
                );
            }
            if let Some(run) = st.held {
                assert forall|k: int| 0 <= k < all.len() implies (#[trigger] all[k]).bytes
                    == all[0].bytes by {
                    assert(all[k] == expand(run)[k]);
                    assert(all[0] == expand(run)[0]);
                }
            }
        },
    }
}

/// A chunker that keeps runs together fails only where offsets would leave their
/// range.
pub proof fn law_run_fails_only_out_of_range<C: Cdc>(rule: Rule<C>, st: RunState)
    requires
        rule.min <= rule.max,
        rule.max > 0,
    ensures
        st.run_next(rule).1 matches SegmentOutcome::Failed(e) ==> e == Error::OffsetOverflow
            && st.stream.offset + st.stream.pending.len() > u64::MAX,
    decreases st.stream.pending.len(),
{
    let (stream, outcome) = st.stream.segment_next(rule);
    lemma_segment_next(rule, st.stream);
    match outcome {
        SegmentOutcome::Segment(segment) => {
            let run = match st.held {
                Some(run) => SegmentView { count: run.count + segment.count, ..run },
                None => segment,
            };
            law_run_fails_only_out_of_range(rule, RunState { stream, held: Some(run) });
        },
        SegmentOutcome::Failed(_) => {
            let here = rule.chunks(st.stream.pending, st.stream.offset, st.stream.ended);
            let segment = first_segment(here);
            rule.lemma_chunk_len_bounds(st.stream.pending, st.stream.ended);
            lemma_chunks_step(rule, st.stream.pending, st.stream.offset, st.stream.ended);
            lemma_run(
                rule,
                st.stream.pending,
                st.stream.offset,
                st.stream.ended,
                segment.unit,
                segment.count,
            );
        },
        _ => {},
    }
}

/// The one-call interface cuts like the slice chunker with the same sizes and the
/// default hash: its length is 0 only where no chunk can be decided or the sizes
/// make no sense, and else that of the first chunk, which is at most `max_size`,
/// and at least `min_size` unless it is all the data. At the end of input that
/// chunk is the first one of the whole data.
pub proof fn law_one_call_gives_first_chunk(
    data: Seq<u8>,
    min_size: usize,
    max_size: usize,
    eof: bool,
    want_repeats: bool,
    rule: Rule<MinCdcHash4>,
)
    requires
        rule.min == min_size,
        rule.max == max_size,
        rule.cdc == MinCdcHash4::of(0x915f77f5, 0x34636463),
    ensures
        ({
            let (len, repeats) = next_chunk(data, min_size, max_size, eof, want_repeats);
            let decided = data.len() > 0 && (eof || data.len() > max_size);
            &&& min_size > max_size || max_size == 0 || !decided ==> len == 0 && repeats == 0
            &&& min_size <= max_size && max_size > 0 && decided ==> {
                &&& 0 < len <= data.len()
                &&& len <= max_size
                &&& len >= min_size || len == data.len()
                &&& rule.chunk_len(data, eof) == Some(len)
                &&& rule.chunks(data, 0, eof).len() > 0
                &&& rule.chunks(data, 0, eof)[0] == (ChunkView {
                    offset: 0,
                    bytes: data.take(len as int),
                })
                &&& rule.chunks(data, 0, true).len() > 0
                &&& rule.chunks(data, 0, true)[0].bytes == data.take(len as int)
            }
            &&& !want_repeats ==> repeats == 0
        }),
{
    if min_size <= max_size && max_size > 0 && data.len() > 0 && (eof || data.len() > max_size) {
        rule.lemma_chunk_len_bounds(data, eof);
        rule.lemma_chunk_len_bounds(data, true);
        lemma_chunks_step(rule, data, 0, eof);
        lemma_chunks_step(rule, data, 0, true);
        if !eof {
            law_window_decides(rule, data, false, data, true);
        }
    }
}

/// The boundary of the one-call interface, with the default hash written out: of
/// the positions from `min_size` to `max_size` with four bytes before them, the
/// first one for which `(v * 0x915f77f5 + 0x34636463) mod 2^32` is minimal, where
/// `v` is the little-endian value of these bytes.
pub proof fn law_one_call_picks_least_hash(
    data: Seq<u8>,
    min_size: usize,
    max_size: usize,
    eof: bool,
    want_repeats: bool,
    j: int,
)
    requires
        min_size <= max_size,
        max_size >= 4,
        data.len() >= 4,
        data.len() > min_size,
        eof || data.len() > max_size,
        min_size <= j <= max_size,
        4 <= j <= data.len(),
    ensures
        ({
            let i = next_chunk(data, min_size, max_size, eof, want_repeats).0;
            let a = data[i - 4] + 0x100 * data[i - 3] + 0x1_0000 * data[i - 2] + 0x100_0000
                * data[i - 1];
            let c = data[j - 4] + 0x100 * data[j - 3] + 0x1_0000 * data[j - 2] + 0x100_0000
                * data[j - 1];
            &&& min_size <= i <= max_size
            &&& 4 <= i <= data.len()
            &&& (a * 0x915f77f5 + 0x34636463) % 0x1_0000_0000 <= (c * 0x915f77f5 + 0x34636463)
                % 0x1_0000_0000
            &&& j < i ==> (a * 0x915f77f5 + 0x34636463) % 0x1_0000_0000 < (c * 0x915f77f5
                + 0x34636463) % 0x1_0000_0000
        }),
{
    let rule = default_rule(min_size, max_size);
    MinCdcHash4::lemma_of_params(0x915f77f5, 0x34636463);
    law_one_call_gives_first_chunk(data, min_size, max_size, eof, want_repeats, rule);
    law_mincdchash4_picks_least_hash(rule, data, eof, j);
}

/// The repeats of the one-call interface, written out: where they are wanted, `k`
/// of them are promised exactly if the decision window of the `k`-th one ends
/// before the last byte, and up to there the data repeats with the period of the
/// chunk.
pub proof fn law_one_call_promises_all_repeats(
    data: Seq<u8>,
    min_size: usize,
    max_size: usize,
    eof: bool,
    k: nat,
)
    requires
        k >= 1,
    ensures
        ({
            let (len, repeats) = next_chunk(data, min_size, max_size, eof, true);
            k <= repeats <==> {
                &&& len > 0
                &&& k * len + max_size < data.len()
                &&& forall|j: int|
                    len <= j < k * len + max_size ==> data[j] == #[trigger] data[j - len]
            }
        }),
{
    let (len, repeats) = next_chunk(data, min_size, max_size, eof, true);
    let rule = default_rule(min_size, max_size);
    law_one_call_gives_first_chunk(data, min_size, max_size, eof, true, rule);
    law_sure_repeats(data, len, max_size as nat, k);
}

} // verus!
