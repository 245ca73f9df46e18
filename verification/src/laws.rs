//! What holds of the library as a whole.

use crate::mincdc::{min_split, Cdc, Error, MinCdc4, MinCdcHash4};
use crate::model::{
    chunk_bytes, coalesce, contiguous, expand, expand_all, first_segment, lemma_period_end,
    lemma_repeat_len, lemma_run_len_bounds, period_end, read_all, repeat, run_all, run_len,
    segment_all, segment_bytes, sure_repeats, ChunkView, ReadOutcome, Rule, RunState,
    SegmentOutcome, SegmentView, StreamState,
};
use crate::scalar::{
    first_min, is_first_min, lemma_first_min_exists, lemma_first_min_unique, window_key,
};
use crate::simd::{within_four, MIN_BLOCK_LEN};
use vstd::prelude::*;

verus! {

/// There is one answer to the boundary search: two positions that are each the
/// first minimal window are the same. So the searches of every width, each of
/// which finds such a position, place boundaries alike on every machine.
pub proof fn law_search_has_one_answer(
    b: Seq<u8>,
    hashed: bool,
    multiplier: u32,
    addend: u32,
    i: int,
    j: int,
)
    requires
        is_first_min(b, hashed, multiplier, addend, i),
        is_first_min(b, hashed, multiplier, addend, j),
    ensures
        i == j,
{
    lemma_first_min_unique(b, hashed, multiplier, addend, i);
    lemma_first_min_unique(b, hashed, multiplier, addend, j);
}

/// A block search and a last look at four windows settle the search: where `pos`
/// has the first minimal window within the next four positions, and `k` is the
/// first minimal one of the four windows from `pos` on, that window is at
/// `pos + k`.
pub proof fn law_last_look_settles_search(
    b: Seq<u8>,
    hashed: bool,
    multiplier: u32,
    addend: u32,
    pos: int,
    k: int,
)
    requires
        b.len() >= MIN_BLOCK_LEN,
        within_four(b, hashed, multiplier, addend, pos),
        is_first_min(b.skip(pos).take(7), hashed, multiplier, addend, k),
    ensures
        pos + k == first_min(b, hashed, multiplier, addend),
        is_first_min(b, hashed, multiplier, addend, pos + k),
{
    let four = b.skip(pos).take(7);
    lemma_first_min_exists(b, hashed, multiplier, addend);
    let p = first_min(b, hashed, multiplier, addend);
    assert forall|j: int| 0 <= j < 4 implies #[trigger] window_key(
        four,
        j,
        hashed,
        multiplier,
        addend,
    ) == window_key(b, pos + j, hashed, multiplier, addend) by {}
    assert(window_key(four, p - pos, hashed, multiplier, addend) == window_key(
        b,
        p,
        hashed,
        multiplier,
        addend,
    ));
    assert(window_key(four, k, hashed, multiplier, addend) == window_key(
        b,
        pos + k,
        hashed,
        multiplier,
        addend,
    ));
}

/// Whether `i` is the documented boundary: of the positions between the smallest
/// and the largest allowed one, in `avail`, that have a whole window before
/// them, the first one whose window has the least key.
pub open spec fn is_first_minimal_boundary(
    avail: Seq<u8>,
    min: nat,
    max: nat,
    hashed: bool,
    multiplier: u32,
    addend: u32,
    i: nat,
) -> bool {
    &&& min <= i <= max
    &&& 4 <= i <= avail.len()
    &&& forall|j: int|
        min <= j <= max && 4 <= j <= avail.len() ==> window_key(
            avail,
            i - 4,
            hashed,
            multiplier,
            addend,
        ) <= #[trigger] window_key(avail, j - 4, hashed, multiplier, addend)
    &&& forall|j: int|
        min <= j < i && 4 <= j ==> window_key(avail, i - 4, hashed, multiplier, addend)
            < #[trigger] window_key(avail, j - 4, hashed, multiplier, addend)
}

proof fn lemma_minimal_boundary<C: Cdc>(
    rule: Rule<C>,
    avail: Seq<u8>,
    eof: bool,
    hashed: bool,
    multiplier: u32,
    addend: u32,
)
    requires
        rule.valid(),
        rule.cdc.window() == 4,
        forall|b: Seq<u8>|
            #[trigger] rule.cdc.split(b) == min_split(b, hashed, multiplier, addend),
        avail.len() > rule.min,
        eof || avail.len() > rule.max,
        rule.max >= 4,
        avail.len() >= 4,
    ensures
        rule.chunk_len(avail, eof) matches Some(i) && is_first_minimal_boundary(
            avail,
            rule.min,
            rule.max,
            hashed,
            multiplier,
            addend,
            i,
        ),
{
    let start = rule.search_start() as int;
    let end = rule.search_end(avail.len()) as int;
    let search = avail.subrange(start, end);
    lemma_first_min_exists(search, hashed, multiplier, addend);
    let k = first_min(search, hashed, multiplier, addend);
    assert forall|j: int| 0 <= j <= search.len() - 4 implies #[trigger] window_key(
        search,
        j,
        hashed,
        multiplier,
        addend,
    ) == window_key(avail, start + j, hashed, multiplier, addend) by {}
    let i = (start + 4 + k) as nat;
    assert(rule.chunk_len(avail, eof) == Some(i));
    assert(window_key(search, k, hashed, multiplier, addend) == window_key(
        avail,
        i - 4,
        hashed,
        multiplier,
        addend,
    ));
    assert forall|j: int|
        rule.min <= j <= rule.max && 4 <= j <= avail.len() implies window_key(
        avail,
        i - 4,
        hashed,
        multiplier,
        addend,
    ) <= #[trigger] window_key(avail, j - 4, hashed, multiplier, addend) by {
        assert(window_key(search, j - 4 - start, hashed, multiplier, addend) == window_key(
            avail,
            j - 4,
            hashed,
            multiplier,
            addend,
        ));
    }
    assert forall|j: int| rule.min <= j < i && 4 <= j implies window_key(
        avail,
        i - 4,
        hashed,
        multiplier,
        addend,
    ) < #[trigger] window_key(avail, j - 4, hashed, multiplier, addend) by {
        assert(window_key(search, j - 4 - start, hashed, multiplier, addend) == window_key(
            avail,
            j - 4,
            hashed,
            multiplier,
            addend,
        ));
    }
}

/// With [`MinCdc4`] a chunk ends behind the first window whose little-endian
/// value is minimal among the allowed positions, unless the data is short
/// enough to be a final chunk or holds no window.
pub proof fn law_mincdc4_boundary(rule: Rule<MinCdc4>, avail: Seq<u8>, eof: bool)
    requires
        rule.valid(),
        avail.len() > rule.min,
        eof || avail.len() > rule.max,
        rule.max >= 4,
        avail.len() >= 4,
    ensures
        rule.chunk_len(avail, eof) matches Some(i) && is_first_minimal_boundary(
            avail,
            rule.min,
            rule.max,
            false,
            1,
            0,
            i,
        ),
{
    lemma_minimal_boundary(rule, avail, eof, false, 1, 0);
}

/// With [`MinCdcHash4`] a chunk ends behind the first window whose hash is
/// minimal among the allowed positions, unless the data is short enough to be a
/// final chunk or holds no window.
pub proof fn law_mincdchash4_boundary(rule: Rule<MinCdcHash4>, avail: Seq<u8>, eof: bool)
    requires
        rule.valid(),
        avail.len() > rule.min,
        eof || avail.len() > rule.max,
        rule.max >= 4,
        avail.len() >= 4,
    ensures
        rule.chunk_len(avail, eof) matches Some(i) && is_first_minimal_boundary(
            avail,
            rule.min,
            rule.max,
            true,
            rule.cdc.params().0,
            rule.cdc.params().1,
            i,
        ),
{
    lemma_minimal_boundary(
        rule,
        avail,
        eof,
        true,
        rule.cdc.params().0,
        rule.cdc.params().1,
    );
}

/// A boundary is decided by the decision window alone: where two inputs start
/// with the same `max` bytes, and each of them can be decided, their first
/// chunks have the same length, whatever follows and whether or not the end of
/// input is known.
pub proof fn law_window_decides<C: Cdc>(
    rule: Rule<C>,
    a: Seq<u8>,
    a_eof: bool,
    b: Seq<u8>,
    b_eof: bool,
)
    requires
        rule.valid(),
        a.len() >= rule.max,
        b.len() >= rule.max,
        a.take(rule.max as int) == b.take(rule.max as int),
        a_eof || a.len() > rule.max,
        b_eof || b.len() > rule.max,
    ensures
        rule.chunk_len(a, a_eof) == rule.chunk_len(b, b_eof),
{
    lemma_decided_by_window(rule, a, a_eof);
    lemma_decided_by_window(rule, b, b_eof);
}

proof fn lemma_decided_by_window<C: Cdc>(rule: Rule<C>, a: Seq<u8>, eof: bool)
    requires
        rule.valid(),
        a.len() >= rule.max,
        eof || a.len() > rule.max,
    ensures
        rule.chunk_len(a, eof) == Some(
            rule.search_start() + rule.cdc.split(
                a.take(rule.max as int).subrange(rule.search_start() as int, rule.max as int),
            ),
        ),
{
    let window = a.take(rule.max as int);
    let search = window.subrange(rule.search_start() as int, rule.max as int);
    rule.cdc.contract(search);
    assert(search == a.subrange(rule.search_start() as int, rule.max as int));
}

/// A boundary that was placed before the end of input was known stands,
/// whatever comes after.
pub proof fn law_boundary_is_final<C: Cdc>(
    rule: Rule<C>,
    avail: Seq<u8>,
    more: Seq<u8>,
    eof: bool,
)
    requires
        rule.valid(),
        rule.chunk_len(avail, false) is Some,
    ensures
        rule.chunk_len(avail + more, eof) == rule.chunk_len(avail, false),
{
    assert((avail + more).take(rule.max as int) == avail.take(rule.max as int));
    law_window_decides(rule, avail + more, eof, avail, false);
}

/// Behind the first period, periodic data is the data itself, one period
/// earlier.
pub(crate) proof fn lemma_period_end_bounds(data: Seq<u8>, period: nat, i: nat)
    requires
        0 < period <= i <= data.len(),
    ensures
        i <= period_end(data, period, i) <= data.len(),
        forall|j: int|
            i <= j < period_end(data, period, i) ==> data[j] == #[trigger] data[j - period],
        period_end(data, period, i) < data.len() ==> data[period_end(data, period, i) as int]
            != data[period_end(data, period, i) - period],
    decreases data.len() - i,
{
    if i < data.len() && data[i as int] == data[i - period] {
        lemma_period_end_bounds(data, period, i + 1);
        let end = period_end(data, period, i);
        assert forall|j: int| i <= j < end implies data[j] == #[trigger] data[j - period] by {
            if j == i {
            }
        }
    }
}

/// One repetition on, there is one sure repetition less.
proof fn lemma_sure_repeats_step<C: Cdc>(rule: Rule<C>, tail: Seq<u8>, eof: bool)
    requires
        rule.valid(),
        rule.chunk_len(tail, eof) matches Some(u) && sure_repeats(tail, u, rule.max) > 0,
    ensures
        rule.chunk_len(tail, eof) matches Some(u) && {
            &&& tail.len() > rule.max + u
            &&& rule.chunk_len(tail.skip(u as int), eof) == Some(u)
            &&& tail.skip(u as int).take(u as int) == tail.take(u as int)
            &&& sure_repeats(tail.skip(u as int), u, rule.max) == sure_repeats(tail, u, rule.max)
                - 1
        },
{
    let u = rule.chunk_len(tail, eof)->0;
    rule.lemma_chunk_len_bounds(tail, eof);
    lemma_period_end_bounds(tail, u, u);
    let end = period_end(tail, u, u);
    let limit = if end < tail.len() {
        end as int
    } else {
        tail.len() - 1
    };
    let max = rule.max as int;
    assert(limit - max >= u) by {
        if limit - max < u {
            vstd::arithmetic::div_mod::lemma_basic_div(limit - max, u as int);
        }
    }
    let next = tail.skip(u as int);
    assert forall|i: int| 0 <= i < end - u implies next[i] == tail[i] by {
        assert(tail[u + i] == tail[(u + i) - u]);
    }
    assert(next.take(u as int) =~= tail.take(u as int));
    assert(next.take(max) =~= tail.take(max));
    law_window_decides(rule, next, eof, tail, eof);
    assert forall|j: int| u <= j < end - u implies next[j] == #[trigger] next[j - u] by {
        assert(tail[j + u] == tail[(j + u) - u]);
    }
    lemma_period_end(next, u, u, (end - u) as nat);
    vstd::arithmetic::div_mod::lemma_div_minus_one(limit - max, u as int);
}

/// The first chunk, and the chunks of what follows it.
pub proof fn lemma_chunks_step<C: Cdc>(rule: Rule<C>, avail: Seq<u8>, base: nat, eof: bool)
    requires
        rule.valid(),
    ensures
        match rule.chunk_len(avail, eof) {
            Some(len) => {
                &&& 0 < len <= avail.len()
                &&& rule.chunks(avail, base, eof) == seq![
                    ChunkView { offset: base, bytes: avail.take(len as int) },
                ] + rule.chunks(avail.skip(len as int), base + len, eof)
                &&& rule.chunks(avail, base, eof).len() > 0
                &&& rule.chunks(avail, base, eof)[0] == (ChunkView {
                    offset: base,
                    bytes: avail.take(len as int),
                })
                &&& rule.chunks(avail, base, eof).skip(1) == rule.chunks(
                    avail.skip(len as int),
                    base + len,
                    eof,
                )
            },
            None => rule.chunks(avail, base, eof).len() == 0,
        },
{
    reveal(Rule::chunks);
    rule.lemma_chunk_len_bounds(avail, eof);
    if let Some(len) = rule.chunk_len(avail, eof) {
        let rest = rule.chunks(avail.skip(len as int), base + len, eof);
        assert(rule.chunks(avail, base, eof).skip(1) =~= rest);
    }
}

/// There are not more chunks than bytes.
pub proof fn lemma_chunks_len<C: Cdc>(rule: Rule<C>, avail: Seq<u8>, base: nat, eof: bool)
    requires
        rule.valid(),
    ensures
        rule.chunks(avail, base, eof).len() <= avail.len(),
    decreases avail.len(),
{
    lemma_chunks_step(rule, avail, base, eof);
    if let Some(len) = rule.chunk_len(avail, eof) {
        lemma_chunks_len(rule, avail.skip(len as int), base + len, eof);
    }
}

/// The sure repetitions are chunks in a row that are identical to the first
/// one, and the chunks go on behind them as from any other position.
proof fn lemma_sure_run<C: Cdc>(
    rule: Rule<C>,
    tail: Seq<u8>,
    base: nat,
    eof: bool,
    r: nat,
)
    requires
        rule.valid(),
        rule.chunk_len(tail, eof) matches Some(u) && r <= sure_repeats(tail, u, rule.max),
    ensures
        rule.chunk_len(tail, eof) matches Some(u) && {
            let rest = tail.skip((r * u) as int);
            let all = rule.chunks(tail, base, eof);
            let behind = rule.chunks(rest, base + r * u, eof);
            &&& (r + 1) * u <= tail.len()
            &&& rule.chunk_len(rest, eof) == Some(u)
            &&& rest.take(u as int) == tail.take(u as int)
            &&& r <= all.len()
            &&& all.skip(r as int) == behind
            &&& run_len(all, tail.take(u as int)) == r + run_len(behind, tail.take(u as int))
        },
    decreases r,
{
    let u = rule.chunk_len(tail, eof)->0;
    rule.lemma_chunk_len_bounds(tail, eof);
    if r == 0 {
        assert(0 * u == 0 && (0 + 1) * u == u) by (nonlinear_arith);
        assert(tail.skip(0) == tail);
        let all = rule.chunks(tail, base, eof);
        assert(all.skip(0) == all);
    } else {
        lemma_sure_repeats_step(rule, tail, eof);
        let next = tail.skip(u as int);
        let q = (r - 1) as nat;
        lemma_sure_run(rule, next, base + u, eof, q);
        assert(r * u == q * u + u && (r + 1) * u == (q + 1) * u + u) by (nonlinear_arith)
            requires
                r == q + 1,
        ;
        assert(next.skip((q * u) as int) == tail.skip((r * u) as int));
        lemma_chunks_step(rule, tail, base, eof);
        let all = rule.chunks(tail, base, eof);
        assert(all.skip(1).skip(q as int) == all.skip(r as int));
    }
}

/// Behind the first chunk and its sure repetitions, the chunks go on as from
/// any other position.
pub(crate) proof fn lemma_skip_repeats<C: Cdc>(
    rule: Rule<C>,
    tail: Seq<u8>,
    base: nat,
    eof: bool,
    r: nat,
)
    requires
        rule.valid(),
        rule.chunk_len(tail, eof) matches Some(u) && r <= sure_repeats(tail, u, rule.max),
    ensures
        rule.chunk_len(tail, eof) matches Some(u) && {
            let skipped = (1 + r) * u;
            let all = rule.chunks(tail, base, eof);
            let behind = rule.chunks(tail.skip(skipped as int), base + skipped, eof);
            &&& skipped <= tail.len()
            &&& all.skip(1 + r as int) == behind
            &&& run_len(all, tail.take(u as int)) == 1 + r + run_len(behind, tail.take(u as int))
        },
{
    let u = rule.chunk_len(tail, eof)->0;
    lemma_sure_run(rule, tail, base, eof, r);
    let rest = tail.skip((r * u) as int);
    assert((1 + r) * u == r * u + u && (r + 1) * u == r * u + u) by (nonlinear_arith);
    lemma_chunks_step(rule, rest, base + r * u, eof);
    assert(rest.skip(u as int) == tail.skip(((1 + r) * u) as int));
    let all = rule.chunks(tail, base, eof);
    assert(all.skip(r as int).skip(1) == all.skip(1 + r as int));
}

/// The first `r` chunks of a run make up the front of the data, and the chunks
/// go on behind them as from any other position.
pub(crate) proof fn lemma_run<C: Cdc>(
    rule: Rule<C>,
    avail: Seq<u8>,
    base: nat,
    eof: bool,
    unit: Seq<u8>,
    r: nat,
)
    requires
        rule.valid(),
        r <= run_len(rule.chunks(avail, base, eof), unit),
    ensures
        unit.len() * r <= avail.len(),
        avail.take((unit.len() * r) as int) == repeat(unit, r),
        rule.chunks(avail, base, eof).skip(r as int) == rule.chunks(
            avail.skip((unit.len() * r) as int),
            base + unit.len() * r,
            eof,
        ),
    decreases r,
{
    let all = rule.chunks(avail, base, eof);
    let u = unit.len();
    lemma_run_len_bounds(all, unit);
    if r == 0 {
        assert(u * 0 == 0) by (nonlinear_arith);
        assert(avail.skip(0) == avail);
        assert(all.skip(0) == all);
    } else {
        let q = (r - 1) as nat;
        lemma_run(rule, avail, base, eof, unit, q);
        lemma_run_skip(all, unit, q);
        let rest = avail.skip((u * q) as int);
        let behind = rule.chunks(rest, base + u * q, eof);
        lemma_chunks_step(rule, rest, base + u * q, eof);
        assert(u * r == u * q + u) by (nonlinear_arith)
            requires
                r == q + 1,
        ;
        assert(behind[0].bytes == unit);
        assert(rest.skip(u as int) == avail.skip((u * r) as int));
        assert(all.skip(q as int).skip(1) == all.skip(r as int));
        assert(avail.take((u * r) as int) == avail.take((u * q) as int) + rest.take(u as int));
    }
}

/// Some chunks into a run, the rest of it is left.
pub(crate) proof fn lemma_run_skip(chunks: Seq<ChunkView>, unit: Seq<u8>, r: nat)
    requires
        r <= run_len(chunks, unit),
    ensures
        r <= chunks.len(),
        run_len(chunks.skip(r as int), unit) == run_len(chunks, unit) - r,
    decreases r,
{
    lemma_run_len_bounds(chunks, unit);
    if r == 0 {
        assert(chunks.skip(0) == chunks);
    } else {
        lemma_run_skip(chunks.skip(1), unit, (r - 1) as nat);
        assert(chunks.skip(1).skip(r - 1) == chunks.skip(r as int));
    }
}

/// What the packed scan claims is what the boundary search would find: each of
/// the claimed repetitions is decided, both at the end of input and before it
/// is known, has the length of the first chunk, and holds the same bytes. It
/// stays so whatever is appended to the data.
pub proof fn law_packed_repeats_are_chunks<C: Cdc>(
    rule: Rule<C>,
    tail: Seq<u8>,
    eof: bool,
    more: Seq<u8>,
    any_eof: bool,
    k: nat,
)
    requires
        rule.valid(),
        rule.chunk_len(tail, eof) matches Some(u) && 1 <= k <= sure_repeats(tail, u, rule.max),
    ensures
        rule.chunk_len(tail, eof) matches Some(u) && {
            let at = (tail + more).skip((k * u) as int);
            &&& (k + 1) * u <= tail.len()
            &&& rule.chunk_len(at, any_eof) == Some(u)
            &&& at.take(u as int) == tail.take(u as int)
        },
{
    let u = rule.chunk_len(tail, eof)->0;
    rule.lemma_chunk_len_bounds(tail, eof);
    lemma_sure_repeats_step(rule, tail, eof);
    law_window_decides(rule, tail, eof, tail, false);
    lemma_sure_run(rule, tail, 0, false, k);
    let rest = tail.skip((k * u) as int);
    assert((k + 1) * u == k * u + u) by (nonlinear_arith);
    assert((tail + more).skip((k * u) as int) == rest + more);
    law_boundary_is_final(rule, rest, more, any_eof);
    assert((rest + more).take(u as int) == rest.take(u as int));
}

/// Chunking is lossless: the chunks are a contiguous partition of the data.
pub proof fn law_chunks_are_lossless<C: Cdc>(rule: Rule<C>, data: Seq<u8>, base: nat)
    requires
        rule.valid(),
    ensures
        chunk_bytes(rule.chunks(data, base, true)) == data,
        contiguous(rule.chunks(data, base, true), base),
    decreases data.len(),
{
    lemma_chunks_step(rule, data, base, true);
    rule.lemma_chunk_len_bounds(data, true);
    match rule.chunk_len(data, true) {
        Some(len) => {
            law_chunks_are_lossless(rule, data.skip(len as int), base + len);
            assert(data.take(len as int) + data.skip(len as int) == data);
        },
        None => {
            assert(chunk_bytes(rule.chunks(data, base, true)) =~= data);
        },
    }
}

/// Every chunk starts where it says, holds the bytes that stand there, is not
/// empty, and respects the maximum size. Every chunk but the last respects the
/// minimum size and ends where the next one starts; the last one ends with the
/// data.
pub proof fn law_chunk_sizes<C: Cdc>(rule: Rule<C>, data: Seq<u8>, base: nat, i: int)
    requires
        rule.valid(),
        0 <= i < rule.chunks(data, base, true).len(),
    ensures
        ({
            let chunks = rule.chunks(data, base, true);
            let from = chunks[i].offset - base;
            let to = from + chunks[i].bytes.len();
            &&& 0 <= from < to <= data.len()
            &&& chunks[i].bytes == data.subrange(from, to)
            &&& chunks[i].bytes.len() <= rule.max
            &&& i + 1 < chunks.len() ==> chunks[i].bytes.len() >= rule.min && chunks[i + 1].offset
                == base + to
            &&& i + 1 == chunks.len() ==> to == data.len()
        }),
    decreases data.len(),
{
    lemma_chunks_step(rule, data, base, true);
    rule.lemma_chunk_len_bounds(data, true);
    let chunks = rule.chunks(data, base, true);
    let len = rule.chunk_len(data, true)->0;
    let rest = data.skip(len as int);
    lemma_chunks_step(rule, rest, base + len, true);
    rule.lemma_chunk_len_bounds(rest, true);
    if i > 0 {
        law_chunk_sizes(rule, rest, base + len, i - 1);
        let tail = rule.chunks(rest, base + len, true);
        assert(tail[i - 1] == chunks[i]);
        assert(i + 1 < chunks.len() ==> tail[i] == chunks[i + 1]);
        let from = chunks[i].offset - base;
        let to = from + chunks[i].bytes.len();
        assert(rest.subrange(from - len, to - len) =~= data.subrange(from, to));
    } else {
        assert(data.take(len as int) =~= data.subrange(0, len as int));
        if chunks.len() > 1 {
            assert(chunks.skip(1)[0] == chunks[1]);
        }
    }
}

/// A chunk that starts `by` bytes later.
pub open spec fn shifted(chunk: ChunkView, by: nat) -> ChunkView {
    ChunkView { offset: chunk.offset + by, ..chunk }
}

/// Chunking does not depend on where the data stands: at another offset it is cut
/// into the same chunks, shifted by the difference.
pub proof fn law_offset_shifts_chunks<C: Cdc>(
    rule: Rule<C>,
    data: Seq<u8>,
    base: nat,
    by: nat,
    eof: bool,
)
    requires
        rule.valid(),
    ensures
        rule.chunks(data, base + by, eof) == rule.chunks(data, base, eof).map_values(
            |chunk: ChunkView| shifted(chunk, by),
        ),
    decreases data.len(),
{
    let f = |chunk: ChunkView| shifted(chunk, by);
    let here = rule.chunks(data, base, eof);
    let there = rule.chunks(data, base + by, eof);
    lemma_chunks_step(rule, data, base, eof);
    lemma_chunks_step(rule, data, base + by, eof);
    if let Some(len) = rule.chunk_len(data, eof) {
        law_offset_shifts_chunks(rule, data.skip(len as int), base + len, by, eof);
        assert(base + len + by == base + by + len);
        assert(there.skip(1) == here.skip(1).map_values(f));
        assert forall|i: int| 0 <= i < there.len() implies there[i] == here.map_values(f)[i] by {
            if i > 0 {
                assert(there[i] == there.skip(1)[i - 1]);
                assert(here[i] == here.skip(1)[i - 1]);
            }
        }
    }
    assert(there =~= here.map_values(f));
}

/// Chunking can be resumed at any boundary: the chunks from one on are the chunks
/// of the remaining data, at the offset of that boundary.
pub proof fn law_chunks_resume_at_boundary<C: Cdc>(
    rule: Rule<C>,
    data: Seq<u8>,
    base: nat,
    eof: bool,
    i: int,
)
    requires
        rule.valid(),
        0 <= i < rule.chunks(data, base, eof).len(),
    ensures
        ({
            let chunks = rule.chunks(data, base, eof);
            let from = chunks[i].offset - base;
            &&& 0 <= from < data.len()
            &&& chunks.skip(i) == rule.chunks(data.skip(from), chunks[i].offset, eof)
        }),
    decreases i,
{
    lemma_chunks_step(rule, data, base, eof);
    let chunks = rule.chunks(data, base, eof);
    let len = rule.chunk_len(data, eof)->0;
    if i == 0 {
        assert(chunks.skip(0) =~= chunks);
        assert(data.skip(0) =~= data);
    } else {
        let rest = data.skip(len as int);
        assert(chunks.skip(1)[i - 1] == chunks[i]);
        law_chunks_resume_at_boundary(rule, rest, base + len, eof, i - 1);
        assert(chunks.skip(1).skip(i - 1) =~= chunks.skip(i));
        let from = chunks[i].offset - base;
        assert(rest.skip(from - len) =~= data.skip(from));
    }
}

/// An edit leaves the chunks before it alone: every chunk of `a` whose decision
/// window lies within the first `p` bytes is a chunk of any `b` that starts with
/// the same `p` bytes, with the same number, offset and bytes.
pub proof fn law_edit_is_local<C: Cdc>(
    rule: Rule<C>,
    a: Seq<u8>,
    b: Seq<u8>,
    p: nat,
    base: nat,
    i: int,
)
    requires
        rule.valid(),
        p <= a.len(),
        p <= b.len(),
        a.take(p as int) == b.take(p as int),
        0 <= i < rule.chunks(a, base, true).len(),
        rule.chunks(a, base, true)[i].offset + rule.max <= base + p,
    ensures
        i < rule.chunks(b, base, true).len(),
        rule.chunks(b, base, true)[i] == rule.chunks(a, base, true)[i],
    decreases i,
{
    law_chunk_sizes(rule, a, base, i);
    lemma_chunks_step(rule, a, base, true);
    lemma_chunks_step(rule, b, base, true);
    rule.lemma_chunk_len_bounds(a, true);
    let max = rule.max as int;
    assert(a.take(max) =~= a.take(p as int).take(max));
    assert(b.take(max) =~= b.take(p as int).take(max));
    law_window_decides(rule, a, true, b, true);
    let len = rule.chunk_len(a, true)->0;
    assert(a.take(len as int) =~= a.take(max).take(len as int));
    assert(b.take(len as int) =~= b.take(max).take(len as int));
    if i > 0 {
        let a_rest = a.skip(len as int);
        let b_rest = b.skip(len as int);
        let q = (p - len) as nat;
        assert(a_rest.take(q as int) =~= a.take(p as int).skip(len as int));
        assert(b_rest.take(q as int) =~= b.take(p as int).skip(len as int));
        let a_chunks = rule.chunks(a, base, true);
        let b_chunks = rule.chunks(b, base, true);
        assert(a_chunks.skip(1)[i - 1] == a_chunks[i]);
        law_edit_is_local(rule, a_rest, b_rest, q, base + len, i - 1);
        assert(b_chunks.skip(1)[i - 1] == b_chunks[i]);
    }
}

/// A run is what its segment expands to.
pub(crate) proof fn lemma_expand_run(chunks: Seq<ChunkView>, base: nat, unit: Seq<u8>, r: nat)
    requires
        contiguous(chunks, base),
        r <= run_len(chunks, unit),
    ensures
        r <= chunks.len(),
        expand(SegmentView { offset: base, unit, count: r }) + chunks.skip(r as int) == chunks,
        contiguous(chunks.skip(r as int), base + unit.len() * r),
    decreases r,
{
    lemma_run_len_bounds(chunks, unit);
    let segment = SegmentView { offset: base, unit, count: r };
    if r == 0 {
        assert(unit.len() * 0 == 0) by (nonlinear_arith);
        assert(chunks.skip(0) == chunks);
        assert(expand(segment) + chunks =~= chunks);
    } else {
        let q = (r - 1) as nat;
        let u = unit.len();
        lemma_expand_run(chunks.skip(1), base + u, unit, q);
        let rest = SegmentView { offset: base + u, unit, count: q };
        assert(chunks.skip(1).skip(q as int) == chunks.skip(r as int));
        assert(u * r == u + u * q) by (nonlinear_arith)
            requires
                r == q + 1,
        ;
        assert forall|i: int| 0 <= i < r implies #[trigger] expand(segment)[i] == chunks[i] by {
            if i == 0 {
                assert(u * 0 == 0) by (nonlinear_arith);
            } else {
                assert(u + u * (i - 1) == u * i) by (nonlinear_arith);
                assert(expand(rest)[i - 1] == chunks.skip(1)[i - 1]) by {
                    assert((expand(rest) + chunks.skip(1).skip(q as int))[i - 1] == expand(
                        rest,
                    )[i - 1]);
                }
            }
        }
        assert(expand(segment) + chunks.skip(r as int) =~= chunks);
    }
}

/// Coalescing is lossless: the segments stand for exactly the chunks that were
/// coalesced, and cover the same bytes.
pub proof fn law_coalescing_is_lossless(chunks: Seq<ChunkView>, base: nat)
    requires
        contiguous(chunks, base),
    ensures
        expand_all(coalesce(chunks)) == chunks,
        segment_bytes(coalesce(chunks)) == chunk_bytes(chunks),
    decreases chunks.len(),
{
    if chunks.len() > 0 {
        let segment = first_segment(chunks);
        lemma_run_len_bounds(chunks, chunks[0].bytes);
        lemma_expand_run(chunks, base, segment.unit, segment.count);
        lemma_run_bytes(chunks, segment.unit, segment.count);
        let rest = chunks.skip(segment.count as int);
        law_coalescing_is_lossless(rest, base + segment.unit.len() * segment.count);
        assert(coalesce(chunks).skip(1) =~= coalesce(rest));
    }
}

/// The bytes of the first `r` chunks of a run.
proof fn lemma_run_bytes(chunks: Seq<ChunkView>, unit: Seq<u8>, r: nat)
    requires
        r <= run_len(chunks, unit),
    ensures
        r <= chunks.len(),
        chunk_bytes(chunks) == repeat(unit, r) + chunk_bytes(chunks.skip(r as int)),
    decreases r,
{
    lemma_run_len_bounds(chunks, unit);
    if r == 0 {
        assert(chunks.skip(0) == chunks);
        assert(repeat(unit, 0) + chunk_bytes(chunks) =~= chunk_bytes(chunks));
    } else {
        let q = (r - 1) as nat;
        lemma_run_bytes(chunks, unit, q);
        lemma_run_skip(chunks, unit, q);
        let rest = chunks.skip(q as int);
        lemma_run_len_bounds(rest, unit);
        assert(rest[0].bytes == unit);
        assert(rest.skip(1) == chunks.skip(r as int));
        assert(repeat(unit, q) + (unit + chunk_bytes(rest.skip(1))) =~= (repeat(unit, q) + unit)
            + chunk_bytes(rest.skip(1)));
    }
}

/// Chunking and coalescing together are lossless: what the segments cover, put
/// together, is the data.
pub proof fn law_segments_restore_data<C: Cdc>(rule: Rule<C>, data: Seq<u8>)
    requires
        rule.valid(),
    ensures
        segment_bytes(coalesce(rule.chunks(data, 0, true))) == data,
        expand_all(coalesce(rule.chunks(data, 0, true))) == rule.chunks(data, 0, true),
{
    law_chunks_are_lossless(rule, data, 0);
    law_coalescing_is_lossless(rule.chunks(data, 0, true), 0);
}

/// Runs are maximal: every segment stands for at least one chunk, and no
/// segment repeats the unit of the one before it. There are never more segments
/// than chunks.
pub proof fn law_runs_are_maximal(chunks: Seq<ChunkView>)
    ensures
        coalesce(chunks).len() <= chunks.len(),
        chunks.len() > 0 ==> coalesce(chunks).len() > 0,
        forall|i: int| 0 <= i < coalesce(chunks).len() ==> (#[trigger] coalesce(chunks)[i]).count >= 1,
        forall|i: int|
            0 < i < coalesce(chunks).len() ==> (#[trigger] coalesce(chunks)[i]).unit != coalesce(
                chunks,
            )[i - 1].unit,
    decreases chunks.len(),
{
    if chunks.len() > 0 {
        let segment = first_segment(chunks);
        lemma_run_len_bounds(chunks, segment.unit);
        lemma_run_skip(chunks, segment.unit, segment.count);
        let rest = chunks.skip(segment.count as int);
        law_runs_are_maximal(rest);
        let all = coalesce(chunks);
        assert(all.skip(1) =~= coalesce(rest));
        assert forall|i: int| 0 <= i < all.len() implies (#[trigger] all[i]).count >= 1 by {
            if i > 0 {
                assert(all[i] == coalesce(rest)[i - 1]);
            }
        }
        assert forall|i: int| 0 < i < all.len() implies (#[trigger] all[i]).unit != all[i
            - 1].unit by {
            assert(all[i] == coalesce(rest)[i - 1]);
            if i > 1 {
                assert(all[i - 1] == coalesce(rest)[i - 2]);
            } else {
                assert(coalesce(rest)[0] == first_segment(rest));
                lemma_run_len_bounds(rest, segment.unit);
            }
        }
    }
}

/// On data without runs coalescing does nothing: where no chunk is identical to
/// the one before it, the segments are the chunks.
pub proof fn law_no_runs_no_change(chunks: Seq<ChunkView>)
    requires
        forall|i: int| 0 < i < chunks.len() ==> (#[trigger] chunks[i]).bytes != chunks[i - 1].bytes,
    ensures
        coalesce(chunks).len() == chunks.len(),
        forall|i: int|
            0 <= i < chunks.len() ==> #[trigger] coalesce(chunks)[i] == (SegmentView {
                offset: chunks[i].offset,
                unit: chunks[i].bytes,
                count: 1,
            }),
    decreases chunks.len(),
{
    if chunks.len() > 0 {
        let rest = chunks.skip(1);
        if rest.len() > 0 {
            assert(rest[0] == chunks[1]);
            assert(chunks[1].bytes != chunks[1 - 1].bytes);
        }
        assert(run_len(rest, chunks[0].bytes) == 0);
        assert forall|i: int| 0 < i < rest.len() implies (#[trigger] rest[i]).bytes != rest[i
            - 1].bytes by {
            assert(chunks[i + 1].bytes != chunks[(i + 1) - 1].bytes);
        }
        law_no_runs_no_change(rest);
        assert forall|i: int| 0 <= i < chunks.len() implies #[trigger] coalesce(chunks)[i] == (
        SegmentView { offset: chunks[i].offset, unit: chunks[i].bytes, count: 1 }) by {
            if i > 0 {
                assert(coalesce(chunks)[i] == coalesce(rest)[i - 1]);
            }
        }
    }
}

/// A segment is its unit, tiled: what a store keeps of it, and its length, are
/// enough to restore it.
pub proof fn law_unit_tiles_segment(segment: SegmentView, i: int)
    requires
        0 <= i < segment.len(),
    ensures
        segment.bytes().len() == segment.len(),
        segment.bytes()[i] == segment.unit[i % segment.unit.len() as int],
    decreases segment.count,
{
    let u = segment.unit.len();
    lemma_repeat_len(segment.unit, segment.count);
    assert(segment.count > 0 && u > 0) by (nonlinear_arith)
        requires
            0 <= i < u * segment.count,
    ;
    let q = (segment.count - 1) as nat;
    lemma_repeat_len(segment.unit, q);
    assert(u * segment.count == u * q + u) by (nonlinear_arith)
        requires
            segment.count == q + 1,
    ;
    if i < u * q {
        law_unit_tiles_segment(SegmentView { count: q, ..segment }, i);
    } else {
        vstd::arithmetic::div_mod::lemma_fundamental_div_mod_converse(
            i,
            u as int,
            q as int,
            i - u * q,
        );
    }
}

/// A reader's fragments, each of at least one byte.
pub open spec fn proper_reads(reads: Seq<Seq<u8>>) -> bool {
    forall|i: int| 0 <= i < reads.len() ==> (#[trigger] reads[i]).len() > 0
}

/// A streaming chunker that is still going, where a stream that has been seen to
/// end has nothing more to give, and whose offsets stay in range.
pub open spec fn going(st: StreamState, reads: Seq<Seq<u8>>) -> bool {
    &&& proper_reads(reads)
    &&& !st.done
    &&& st.ended ==> reads.len() == 0
    &&& st.offset + st.pending.len() + reads.flatten().len() <= u64::MAX
}

proof fn lemma_fed(st: StreamState, reads: Seq<Seq<u8>>)
    requires
        going(st, reads),
    ensures
        reads.len() > 0 ==> {
            let next = st.fed(reads[0]);
            let rest = reads.drop_first();
            &&& going(next, rest) || st.ended
            &&& next.pending + rest.flatten() == st.pending + reads.flatten()
            &&& next.pending.len() + rest.flatten().len() == st.pending.len()
                + reads.flatten().len()
        },
        reads.len() == 0 ==> going(st.fed(Seq::empty()), reads),
{
    if reads.len() > 0 {
        let rest = reads.drop_first();
        assert(reads[0].len() > 0);
        assert forall|i: int| 0 <= i < rest.len() implies (#[trigger] rest[i]).len() > 0 by {
            assert(reads[i + 1].len() > 0);
        }
        assert((st.pending + reads[0]) + rest.flatten() =~= st.pending + reads.flatten());
    }
}

/// A plain streaming chunker in the midst of its work hands out the chunks of
/// what is pending and what is still to be read.
proof fn lemma_read_all<C: Cdc>(rule: Rule<C>, st: StreamState, reads: Seq<Seq<u8>>)
    requires
        rule.valid(),
        going(st, reads),
    ensures
        read_all(rule, st, reads) == rule.chunks(
            st.pending + reads.flatten(),
            st.offset,
            true,
        ),
    decreases
            st.pending.len() + reads.flatten().len(),
            reads.len(),
            (if st.ended {
                0int
            } else {
                1int
            }),
{
    let more = reads.flatten();
    let data = st.pending + more;
    lemma_fed(st, reads);
    if st.wants_input(rule) {
        if reads.len() == 0 {
            lemma_read_all(rule, st.fed(Seq::empty()), reads);
        } else {
            lemma_read_all(rule, st.fed(reads[0]), reads.drop_first());
        }
    } else {
        let eof = st.pending.len() <= rule.max;
        rule.lemma_chunk_len_bounds(st.pending, eof);
        rule.lemma_chunk_len_bounds(data, true);
        lemma_chunks_step(rule, data, st.offset, true);
        if eof {
            assert(data =~= st.pending);
        } else {
            law_boundary_is_final(rule, st.pending, more, true);
        }
        assert(rule.chunk_len(data, true) == rule.chunk_len(st.pending, eof));
        if let Some(len) = rule.chunk_len(st.pending, eof) {
            let next = st.read_next(rule).0;
            assert(next.pending + more =~= data.skip(len as int));
            assert(data.take(len as int) =~= st.pending.take(len as int));
            lemma_read_all(rule, next, reads);
        } else {
            assert(read_all(rule, st, reads) =~= rule.chunks(data, st.offset, true));
        }
    }
}

/// Reading makes no difference: whatever the fragments in which a reader yields
/// its data, a plain streaming chunker hands out the chunks of that data. A read
/// that is interrupted or fails leaves the chunker as it was, so it makes no
/// difference either.
pub proof fn law_reader_makes_no_difference<C: Cdc>(rule: Rule<C>, reads: Seq<Seq<u8>>)
    requires
        rule.valid(),
        proper_reads(reads),
        reads.flatten().len() <= u64::MAX,
    ensures
        read_all(rule, StreamState::initial(), reads) == rule.chunks(reads.flatten(), 0, true),
{
    let st = StreamState::initial();
    lemma_read_all(rule, st, reads);
    assert(st.pending + reads.flatten() =~= reads.flatten());
}

/// When a plain streaming chunker reads: with more than a decision window
/// pending it asks for no read and hands out a chunk, unless that would end
/// beyond the range of offsets. A chunk that is handed out either had a decision
/// window and another byte to go by, or was decided at the end of input.
pub proof fn law_full_window_needs_no_read<C: Cdc>(rule: Rule<C>, st: StreamState)
    requires
        rule.valid(),
        st.done ==> st.pending.len() == 0,
    ensures
        st.pending.len() > rule.max ==> {
            &&& !st.wants_input(rule)
            &&& rule.chunk_len(st.pending, false) matches Some(len) && {
                if st.offset + len <= u64::MAX {
                    st.read_next(rule).1 == ReadOutcome::Chunk(
                        ChunkView { offset: st.offset, bytes: st.pending.take(len as int) },
                    )
                } else {
                    st.read_next(rule).1 == ReadOutcome::Failed(Error::OffsetOverflow)
                }
            }
        },
        st.read_next(rule).1 is Chunk ==> st.pending.len() > rule.max || st.ended,
        st.read_next(rule).1 is NeedInput <==> st.wants_input(rule),
{
    rule.lemma_chunk_len_bounds(st.pending, false);
}

/// A read of no bytes is the end of input: once it was met, nothing that a
/// reader might still yield becomes part of a chunk or a segment.
pub proof fn law_end_of_input_is_final<C: Cdc>(
    rule: Rule<C>,
    st: StreamState,
    reads: Seq<Seq<u8>>,
)
    requires
        rule.valid(),
        st.ended,
    ensures
        read_all(rule, st, reads) == read_all(rule, st, Seq::empty()),
        segment_all(rule, st, reads) == segment_all(rule, st, Seq::empty()),
    decreases st.pending.len(),
{
    let (next, outcome) = st.read_next(rule);
    if outcome is Chunk && next.pending.len() < st.pending.len() {
        law_end_of_input_is_final(rule, next, reads);
    }
    let (next, outcome) = st.segment_next(rule);
    if outcome is Segment && next.pending.len() < st.pending.len() {
        law_end_of_input_is_final(rule, next, reads);
    }
}

/// The first `r` chunks of a run that can be decided from `avail` are the first
/// chunks of the whole data.
proof fn lemma_decided_run<C: Cdc>(
    rule: Rule<C>,
    avail: Seq<u8>,
    more: Seq<u8>,
    base: nat,
    eof: bool,
    unit: Seq<u8>,
    r: nat,
)
    requires
        rule.valid(),
        eof ==> more.len() == 0,
        r <= run_len(rule.chunks(avail, base, eof), unit),
    ensures
        unit.len() * r <= avail.len(),
        rule.chunks(avail + more, base, true) == expand(
            SegmentView { offset: base, unit, count: r },
        ) + rule.chunks(
            avail.skip((unit.len() * r) as int) + more,
            base + unit.len() * r,
            true,
        ),
    decreases r,
{
    let u = unit.len();
    let segment = SegmentView { offset: base, unit, count: r };
    if r == 0 {
        assert(u * 0 == 0) by (nonlinear_arith);
        assert(avail.skip(0) =~= avail);
        assert(expand(segment) + rule.chunks(avail + more, base, true) =~= rule.chunks(
            avail + more,
            base,
            true,
        ));
    } else {
        let q = (r - 1) as nat;
        lemma_chunks_step(rule, avail, base, eof);
        lemma_chunks_step(rule, avail + more, base, true);
        assert(u * r == u + u * q) by (nonlinear_arith)
            requires
                r == q + 1,
        ;
        if eof {
            assert(avail + more =~= avail);
        } else {
            law_boundary_is_final(rule, avail, more, true);
        }
        assert(rule.chunk_len(avail + more, true) == Some(u));
        let rest = avail.skip(u as int);
        assert((avail + more).take(u as int) =~= avail.take(u as int));
        assert((avail + more).skip(u as int) =~= rest + more);
        lemma_decided_run(rule, rest, more, base + u, eof, unit, q);
        let tail = SegmentView { offset: base + u, unit, count: q };
        let first = ChunkView { offset: base, bytes: unit };
        assert forall|i: int| 0 <= i < r implies #[trigger] expand(segment)[i] == (seq![first]
            + expand(tail))[i] by {
            if i == 0 {
                assert(u * 0 == 0) by (nonlinear_arith);
            } else {
                assert(u + u * (i - 1) == u * i) by (nonlinear_arith);
            }
        }
        assert(expand(segment) =~= seq![first] + expand(tail));
        assert(rest.skip((u * q) as int) =~= avail.skip((u * r) as int));
        let behind = rule.chunks(
            avail.skip((u * r) as int) + more,
            base + u * r,
            true,
        );
        assert(seq![first] + (expand(tail) + behind) =~= expand(segment) + behind);
    }
}

/// A segment that is handed out is not empty and starts where the stream stands,
/// which then goes on behind it.
pub(crate) proof fn lemma_segment_next<C: Cdc>(rule: Rule<C>, st: StreamState)
    requires
        rule.valid(),
    ensures
        st.segment_next(rule).1 matches SegmentOutcome::Segment(segment) ==> {
            let next = st.segment_next(rule).0;
            &&& !st.done
            &&& segment == first_segment(rule.chunks(st.pending, st.offset, st.ended))
            &&& segment.count > 0
            &&& segment.unit.len() > 0
            &&& segment.offset == st.offset
            &&& 0 < segment.len() <= st.pending.len()
            &&& next.pending == st.pending.skip(segment.len() as int)
            &&& next.offset == st.offset + segment.len()
            &&& next.pending.len() < st.pending.len()
        },
{
    if !st.done && !st.wants_input(rule) && st.pending.len() > 0 {
        let all = rule.chunks(st.pending, st.offset, st.ended);
        let segment = first_segment(all);
        rule.lemma_chunk_len_bounds(st.pending, st.ended);
        lemma_chunks_step(rule, st.pending, st.offset, st.ended);
        lemma_run_len_bounds(all, segment.unit);
        lemma_run(rule, st.pending, st.offset, st.ended, segment.unit, segment.count);
        assert(segment.len() > 0) by (nonlinear_arith)
            requires
                segment.unit.len() > 0,
                segment.count > 0,
                segment.len() == segment.unit.len() * segment.count,
        ;
    }
}

/// Consuming a chunk and its claimed repetitions in one go keeps the chunks:
/// they are the next chunks of the whole data, of which `tail` is what is
/// buffered and `more` what is not, and the chunks go on behind them.
pub proof fn law_consuming_repeats_keeps_chunks<C: Cdc>(
    rule: Rule<C>,
    tail: Seq<u8>,
    more: Seq<u8>,
    base: nat,
    eof: bool,
    r: nat,
)
    requires
        rule.valid(),
        eof ==> more.len() == 0,
        rule.chunk_len(tail, eof) matches Some(u) && r <= sure_repeats(tail, u, rule.max),
    ensures
        rule.chunk_len(tail, eof) matches Some(u) && {
            let run = SegmentView { offset: base, unit: tail.take(u as int), count: 1 + r };
            &&& run.len() <= tail.len()
            &&& rule.chunks(tail + more, base, true) == expand(run) + rule.chunks(
                (tail + more).skip(run.len() as int),
                base + run.len(),
                true,
            )
        },
{
    let u = rule.chunk_len(tail, eof)->0;
    let unit = tail.take(u as int);
    rule.lemma_chunk_len_bounds(tail, eof);
    lemma_skip_repeats(rule, tail, base, eof, r);
    lemma_decided_run(rule, tail, more, base, eof, unit, 1 + r);
    let len = u * (1 + r);
    assert((tail + more).skip(len as int) =~= tail.skip(len as int) + more);
}

/// A streaming chunker that coalesces, in the midst of its work, hands out
/// segments that stand for the chunks of what is pending and what is still to
/// be read.
proof fn lemma_segment_all<C: Cdc>(rule: Rule<C>, st: StreamState, reads: Seq<Seq<u8>>)
    requires
        rule.valid(),
        going(st, reads),
    ensures
        expand_all(segment_all(rule, st, reads)) == rule.chunks(
            st.pending + reads.flatten(),
            st.offset,
            true,
        ),
    decreases
            st.pending.len() + reads.flatten().len(),
            reads.len(),
            (if st.ended {
                0int
            } else {
                1int
            }),
{
    let more = reads.flatten();
    let data = st.pending + more;
    lemma_fed(st, reads);
    if st.wants_input(rule) {
        if reads.len() == 0 {
            lemma_segment_all(rule, st.fed(Seq::empty()), reads);
        } else {
            lemma_segment_all(rule, st.fed(reads[0]), reads.drop_first());
        }
    } else if st.pending.len() == 0 {
        assert(data =~= st.pending);
        lemma_chunks_step(rule, data, st.offset, true);
        assert(expand_all(segment_all(rule, st, reads)) =~= rule.chunks(data, st.offset, true));
    } else {
        let all = rule.chunks(st.pending, st.offset, st.ended);
        let segment = first_segment(all);
        rule.lemma_chunk_len_bounds(st.pending, st.ended);
        lemma_chunks_step(rule, st.pending, st.offset, st.ended);
        lemma_run_len_bounds(all, segment.unit);
        lemma_decided_run(
            rule,
            st.pending,
            more,
            st.offset,
            st.ended,
            segment.unit,
            segment.count,
        );
        assert(segment.len() > 0) by (nonlinear_arith)
            requires
                segment.unit.len() > 0,
                segment.count > 0,
                segment.len() == segment.unit.len() * segment.count,
        ;
        let next = st.segment_next(rule).0;
        lemma_segment_all(rule, next, reads);
        let segments = segment_all(rule, st, reads);
        assert(segments.skip(1) =~= segment_all(rule, next, reads));
        assert(segments[0] == segment);
    }
}

/// Whatever the fragments in which a reader yields its data, the segments that a
/// streaming chunker hands out stand for exactly the chunks of that data: the
/// boundaries are those of plain chunking, and the data can be restored. (How
/// the chunks are grouped into segments may depend on the fragments.)
pub proof fn law_streaming_keeps_chunks<C: Cdc>(rule: Rule<C>, reads: Seq<Seq<u8>>)
    requires
        rule.valid(),
        proper_reads(reads),
        reads.flatten().len() <= u64::MAX,
    ensures
        expand_all(segment_all(rule, StreamState::initial(), reads)) == rule.chunks(
            reads.flatten(),
            0,
            true,
        ),
        segment_bytes(segment_all(rule, StreamState::initial(), reads)) == reads.flatten(),
{
    let st = StreamState::initial();
    lemma_segment_all(rule, st, reads);
    assert(st.pending + reads.flatten() =~= reads.flatten());
    let segments = segment_all(rule, st, reads);
    lemma_expanded_bytes(segments);
    law_chunks_are_lossless(rule, reads.flatten(), 0);
}

/// A run, followed by chunks that do not go on with it.
pub(crate) proof fn lemma_run_of_expanded(run: SegmentView, rest: Seq<ChunkView>)
    ensures
        run_len(expand(run) + rest, run.unit) == run.count + run_len(rest, run.unit),
        (expand(run) + rest).skip(run.count as int) == rest,
    decreases run.count,
{
    let all = expand(run) + rest;
    assert(all.skip(run.count as int) =~= rest);
    if run.count == 0 {
        assert(all =~= rest);
    } else {
        let q = (run.count - 1) as nat;
        let u = run.unit.len();
        let tail = SegmentView { offset: run.offset + u, unit: run.unit, count: q };
        assert forall|i: int| 0 <= i < q implies #[trigger] expand(tail)[i] == expand(run)[i
            + 1] by {
            assert(u + u * i == u * (i + 1)) by (nonlinear_arith);
        }
        assert(all.skip(1) =~= expand(tail) + rest);
        lemma_run_of_expanded(tail, rest);
    }
}

/// A run and a segment with the same unit behind it are one longer run.
pub(crate) proof fn lemma_expand_longer(run: SegmentView, segment: SegmentView)
    requires
        run.unit == segment.unit,
        segment.offset == run.offset + run.len(),
    ensures
        expand(SegmentView { count: run.count + segment.count, ..run }) == expand(run) + expand(
            segment,
        ),
{
    let u = run.unit.len();
    let longer = SegmentView { count: run.count + segment.count, ..run };
    assert forall|i: int| run.count <= i < longer.count implies #[trigger] expand(longer)[i]
        == expand(segment)[i - run.count] by {
        assert(u * run.count + u * (i - run.count) == u * i) by (nonlinear_arith);
    }
    assert(expand(longer) =~= expand(run) + expand(segment));
}

/// A chunker that keeps runs together and is still going: the stream it reads is
/// in order, and a run that is held is not empty and ends where the stream goes
/// on.
spec fn keeping(st: RunState, reads: Seq<Seq<u8>>) -> bool {
    &&& proper_reads(reads)
    &&& st.stream.ended || st.stream.done ==> reads.len() == 0
    &&& st.stream.done ==> st.stream.pending.len() == 0
    &&& st.stream.offset + st.stream.pending.len() + reads.flatten().len() <= u64::MAX
    &&& st.held matches Some(run) ==> {
        &&& run.count > 0
        &&& run.unit.len() > 0
        &&& run.offset + run.len() == st.stream.offset
    }
}

/// The chunks that a chunker that keeps runs together has still to hand out.
spec fn chunks_ahead<C: Cdc>(rule: Rule<C>, st: RunState, reads: Seq<Seq<u8>>) -> Seq<
    ChunkView,
> {
    st.held_chunks() + rule.chunks(
        st.stream.pending + reads.flatten(),
        st.stream.offset,
        true,
    )
}

/// What is handed out next is the first segment of the chunks ahead, and no
/// chunk is lost on the way.
proof fn lemma_run_next<C: Cdc>(rule: Rule<C>, st: RunState, reads: Seq<Seq<u8>>)
    requires
        rule.valid(),
        keeping(st, reads),
    ensures
        ({
            let (next, outcome) = st.run_next(rule);
            let all = chunks_ahead(rule, st, reads);
            let ahead = chunks_ahead(rule, next, reads);
            let consumed = next.stream.pending.len() < st.stream.pending.len();
            &&& keeping(next, reads)
            &&& match outcome {
                SegmentOutcome::Segment(segment) => {
                    &&& all.len() > 0
                    &&& segment == first_segment(all)
                    &&& ahead == all.skip(segment.count as int)
                    &&& consumed || (next.stream.pending.len() == st.stream.pending.len()
                        && next.stream.ended == st.stream.ended && st.held is Some && next.held
                        is None)
                },
                SegmentOutcome::NeedInput => {
                    &&& ahead == all
                    &&& consumed || st.stream.wants_input(rule)
                },
                SegmentOutcome::End => all.len() == 0,
                SegmentOutcome::Failed(_) => false,
            }
        }),
    decreases st.stream.pending.len(),
{
    let more = reads.flatten();
    let data = st.stream.pending + more;
    let all = chunks_ahead(rule, st, reads);
    let (stream, outcome) = st.stream.segment_next(rule);
    lemma_segment_next(rule, st.stream);
    match outcome {
        SegmentOutcome::Segment(segment) => {
            let taken = RunState { stream, held: Some(segment) };
            lemma_run_len_bounds(
                rule.chunks(st.stream.pending, st.stream.offset, st.stream.ended),
                segment.unit,
            );
            lemma_decided_run(
                rule,
                st.stream.pending,
                more,
                st.stream.offset,
                st.stream.ended,
                segment.unit,
                segment.count,
            );
            let behind = rule.chunks(stream.pending + more, stream.offset, true);
            assert(rule.chunks(data, st.stream.offset, true) == expand(segment) + behind);
            match st.held {
                Some(run) => {
                    if run.unit == segment.unit {
                        lemma_expand_longer(run, segment);
                        let longer = SegmentView { count: run.count + segment.count, ..run };
                        let u = run.unit.len();
                        assert(u * (run.count + segment.count) == u * run.count + u
                            * segment.count) by (nonlinear_arith);
                        let next = RunState { stream, held: Some(longer) };
                        assert(chunks_ahead(rule, next, reads) =~= all);
                        lemma_run_next(rule, next, reads);
                    } else {
                        let rest = expand(segment) + behind;
                        lemma_run_of_expanded(run, rest);
                        assert(rest[0] == expand(segment)[0]);
                        assert(run_len(rest, run.unit) == 0);
                        lemma_first_of_expanded(run, rest);
                    }
                },
                None => {
                    assert(chunks_ahead(rule, taken, reads) =~= all);
                    lemma_run_next(rule, taken, reads);
                },
            }
        },
        SegmentOutcome::End => {
            assert(data =~= Seq::<u8>::empty());
            lemma_chunks_step(rule, data, st.stream.offset, true);
            let rest = Seq::<ChunkView>::empty();
            if let Some(run) = st.held {
                assert(all =~= expand(run) + rest);
                lemma_run_of_expanded(run, rest);
                lemma_first_of_expanded(run, rest);
                let next = RunState { stream, held: None };
                assert(chunks_ahead(rule, next, reads) =~= rest);
            }
        },
        _ => {
            rule.lemma_chunk_len_bounds(st.stream.pending, st.stream.ended);
            lemma_chunks_step(rule, st.stream.pending, st.stream.offset, st.stream.ended);
            if !st.stream.done && !st.stream.wants_input(rule) {
                let chunks = rule.chunks(st.stream.pending, st.stream.offset, st.stream.ended);
                let segment = first_segment(chunks);
                lemma_run(
                    rule,
                    st.stream.pending,
                    st.stream.offset,
                    st.stream.ended,
                    segment.unit,
                    segment.count,
                );
            }
        },
    }
}

/// The first of the chunks that a run stands for.
pub(crate) proof fn lemma_first_of_expanded(run: SegmentView, rest: Seq<ChunkView>)
    requires
        run.count > 0,
        run_len(expand(run) + rest, run.unit) == run.count,
    ensures
        first_segment(expand(run) + rest) == run,
{
    assert((expand(run) + rest)[0] == expand(run)[0]);
    assert(run.unit.len() * 0 == 0) by (nonlinear_arith);
}

/// A chunker that keeps runs together, in the midst of its work, hands out the
/// maximal runs of the chunks ahead.
proof fn lemma_run_all<C: Cdc>(rule: Rule<C>, st: RunState, reads: Seq<Seq<u8>>)
    requires
        rule.valid(),
        keeping(st, reads),
    ensures
        run_all(rule, st, reads) == coalesce(chunks_ahead(rule, st, reads)),
    decreases
            st.stream.pending.len() + reads.flatten().len(),
            reads.len(),
            (if st.stream.ended {
                0int
            } else {
                1int
            }),
            (if st.held is Some {
                1int
            } else {
                0int
            }),
{
    let all = chunks_ahead(rule, st, reads);
    if st.stream.wants_input(rule) {
        lemma_fed(st.stream, reads);
        if reads.len() == 0 {
            lemma_run_all(rule, st.fed(Seq::empty()), reads);
        } else {
            lemma_run_all(rule, st.fed(reads[0]), reads.drop_first());
        }
    } else {
        lemma_run_next(rule, st, reads);
        let (next, outcome) = st.run_next(rule);
        match outcome {
            SegmentOutcome::Segment(_) => {
                lemma_run_all(rule, next, reads);
            },
            SegmentOutcome::NeedInput => {
                lemma_run_all(rule, next, reads);
            },
            _ => {
                assert(coalesce(all) =~= Seq::<SegmentView>::empty());
            },
        }
    }
}

/// Whatever the fragments in which a reader yields its data, a streaming chunker
/// that keeps runs together hands out the segments that the whole data has: each
/// is a single chunk or a maximal run of identical adjacent chunks. So it hands
/// out what the chunker for a slice does.
pub proof fn law_streaming_runs_are_maximal<C: Cdc>(rule: Rule<C>, reads: Seq<Seq<u8>>)
    requires
        rule.valid(),
        proper_reads(reads),
        reads.flatten().len() <= u64::MAX,
    ensures
        run_all(rule, RunState::initial(), reads) == coalesce(
            rule.chunks(reads.flatten(), 0, true),
        ),
        forall|i: int|
            0 < i < run_all(rule, RunState::initial(), reads).len() ==> (#[trigger] run_all(
                rule,
                RunState::initial(),
                reads,
            )[i]).unit != run_all(rule, RunState::initial(), reads)[i - 1].unit,
        segment_bytes(run_all(rule, RunState::initial(), reads)) == reads.flatten(),
{
    let st = RunState::initial();
    let chunks = rule.chunks(reads.flatten(), 0, true);
    lemma_run_all(rule, st, reads);
    assert(st.stream.pending + reads.flatten() =~= reads.flatten());
    assert(chunks_ahead(rule, st, reads) =~= chunks);
    law_runs_are_maximal(chunks);
    law_segments_restore_data(rule, reads.flatten());
}

/// The end of input is remembered on the way to the next segment.
proof fn lemma_run_next_ended<C: Cdc>(rule: Rule<C>, st: RunState)
    ensures
        st.run_next(rule).0.stream.ended == st.stream.ended,
    decreases st.stream.pending.len(),
{
    let (stream, outcome) = st.stream.segment_next(rule);
    if let SegmentOutcome::Segment(segment) = outcome {
        let run = match st.held {
            Some(run) => SegmentView { count: run.count + segment.count, ..run },
            None => segment,
        };
        if stream.pending.len() < st.stream.pending.len() {
            lemma_run_next_ended(rule, RunState { stream, held: Some(run) });
        }
    }
}

/// A read of no bytes is the end of input for a streaming chunker that keeps
/// runs together as well: nothing that a reader might still yield becomes part
/// of a segment.
pub proof fn law_end_of_input_ends_runs<C: Cdc>(
    rule: Rule<C>,
    st: RunState,
    reads: Seq<Seq<u8>>,
)
    requires
        rule.valid(),
        st.stream.ended,
    ensures
        run_all(rule, st, reads) == run_all(rule, st, Seq::empty()),
    decreases
            st.stream.pending.len(),
            (if st.held is Some {
                1int
            } else {
                0int
            }),
{
    let (next, outcome) = st.run_next(rule);
    lemma_run_next_ended(rule, st);
    let consumed = next.stream.pending.len() < st.stream.pending.len();
    let emptied = next.stream.pending.len() == st.stream.pending.len() && st.held is Some
        && next.held is None;
    if consumed || emptied {
        law_end_of_input_ends_runs(rule, next, reads);
    }
}

/// What a reader yields behind an empty read makes no difference.
proof fn lemma_behind_empty_read<C: Cdc>(
    rule: Rule<C>,
    st: StreamState,
    reads: Seq<Seq<u8>>,
    behind: Seq<Seq<u8>>,
)
    requires
        rule.valid(),
    ensures
        read_all(rule, st, reads + seq![Seq::empty()] + behind) == read_all(rule, st, reads),
        segment_all(rule, st, reads + seq![Seq::empty()] + behind) == segment_all(
            rule,
            st,
            reads,
        ),
    decreases
            st.pending.len() + reads.flatten().len(),
            reads.len(),
            (if st.ended {
                0int
            } else {
                1int
            }),
{
    let all = reads + seq![Seq::empty()] + behind;
    if st.ended {
        law_end_of_input_is_final(rule, st, all);
        law_end_of_input_is_final(rule, st, reads);
    } else if st.wants_input(rule) {
        if reads.len() == 0 {
            assert(all.drop_first() =~= behind);
            assert(all[0] =~= Seq::<u8>::empty());
            assert(reads =~= Seq::<Seq<u8>>::empty());
            law_end_of_input_is_final(rule, st.fed(Seq::empty()), behind);
        } else {
            assert(all[0] == reads[0]);
            assert(all.drop_first() =~= reads.drop_first() + seq![Seq::empty()] + behind);
            lemma_behind_empty_read(rule, st.fed(reads[0]), reads.drop_first(), behind);
        }
    } else {
        let (next, outcome) = st.read_next(rule);
        if outcome is Chunk && next.pending.len() < st.pending.len() {
            lemma_behind_empty_read(rule, next, reads, behind);
        }
        let (next, outcome) = st.segment_next(rule);
        if outcome is Segment && next.pending.len() < st.pending.len() {
            lemma_behind_empty_read(rule, next, reads, behind);
        }
    }
}

/// What a reader yields behind an empty read makes no difference to a chunker
/// that keeps runs together.
proof fn lemma_runs_behind_empty_read<C: Cdc>(
    rule: Rule<C>,
    st: RunState,
    reads: Seq<Seq<u8>>,
    behind: Seq<Seq<u8>>,
)
    requires
        rule.valid(),
    ensures
        run_all(rule, st, reads + seq![Seq::empty()] + behind) == run_all(rule, st, reads),
    decreases
            st.stream.pending.len() + reads.flatten().len(),
            reads.len(),
            (if st.stream.ended {
                0int
            } else {
                1int
            }),
            (if st.held is Some {
                1int
            } else {
                0int
            }),
{
    let all = reads + seq![Seq::empty()] + behind;
    if st.stream.ended {
        law_end_of_input_ends_runs(rule, st, all);
        law_end_of_input_ends_runs(rule, st, reads);
    } else if st.stream.wants_input(rule) {
        if reads.len() == 0 {
            assert(all.drop_first() =~= behind);
            assert(all[0] =~= Seq::<u8>::empty());
            assert(reads =~= Seq::<Seq<u8>>::empty());
            law_end_of_input_ends_runs(rule, st.fed(Seq::empty()), behind);
        } else {
            assert(all[0] == reads[0]);
            assert(all.drop_first() =~= reads.drop_first() + seq![Seq::empty()] + behind);
            lemma_runs_behind_empty_read(rule, st.fed(reads[0]), reads.drop_first(), behind);
        }
    } else {
        let (next, outcome) = st.run_next(rule);
        lemma_run_next_ended(rule, st);
        let consumed = next.stream.pending.len() < st.stream.pending.len();
        let emptied = next.stream.pending.len() == st.stream.pending.len() && st.held is Some
            && next.held is None;
        if consumed || emptied {
            lemma_runs_behind_empty_read(rule, next, reads, behind);
        }
    }
}

/// The first empty read ends the input: the chunks and segments that are handed
/// out are those of what was read before it, whatever a reader would yield if it
/// were read again.
pub proof fn law_first_empty_read_ends_input<C: Cdc>(
    rule: Rule<C>,
    reads: Seq<Seq<u8>>,
    behind: Seq<Seq<u8>>,
)
    requires
        rule.valid(),
        proper_reads(reads),
        reads.flatten().len() <= u64::MAX,
    ensures
        ({
            let all = reads + seq![Seq::empty()] + behind;
            let chunks = rule.chunks(reads.flatten(), 0, true);
            &&& read_all(rule, StreamState::initial(), all) == chunks
            &&& expand_all(segment_all(rule, StreamState::initial(), all)) == chunks
            &&& run_all(rule, RunState::initial(), all) == coalesce(chunks)
        }),
{
    lemma_behind_empty_read(rule, StreamState::initial(), reads, behind);
    lemma_runs_behind_empty_read(rule, RunState::initial(), reads, behind);
    law_reader_makes_no_difference(rule, reads);
    law_streaming_keeps_chunks(rule, reads);
    law_streaming_runs_are_maximal(rule, reads);
}

/// A streaming chunker that keeps runs together groups the chunks in the same
/// way for every reader of the same data.
pub proof fn law_grouping_ignores_fragments<C: Cdc>(
    rule: Rule<C>,
    reads: Seq<Seq<u8>>,
    other_reads: Seq<Seq<u8>>,
)
    requires
        rule.valid(),
        proper_reads(reads),
        proper_reads(other_reads),
        reads.flatten() == other_reads.flatten(),
        reads.flatten().len() <= u64::MAX,
    ensures
        run_all(rule, RunState::initial(), reads) == run_all(
            rule,
            RunState::initial(),
            other_reads,
        ),
{
    law_streaming_runs_are_maximal(rule, reads);
    law_streaming_runs_are_maximal(rule, other_reads);
}

/// The bytes of the chunks that segments stand for are the bytes that the
/// segments cover.
proof fn lemma_expanded_bytes(segments: Seq<SegmentView>)
    ensures
        chunk_bytes(expand_all(segments)) == segment_bytes(segments),
    decreases segments.len(),
{
    if segments.len() > 0 {
        lemma_expanded_bytes(segments.skip(1));
        lemma_expand_bytes(segments[0], expand_all(segments.skip(1)));
    }
}

proof fn lemma_expand_bytes(segment: SegmentView, rest: Seq<ChunkView>)
    ensures
        chunk_bytes(expand(segment) + rest) == segment.bytes() + chunk_bytes(rest),
    decreases segment.count,
{
    if segment.count == 0 {
        assert(expand(segment) + rest =~= rest);
        assert(segment.bytes() + chunk_bytes(rest) =~= chunk_bytes(rest));
    } else {
        let q = (segment.count - 1) as nat;
        let front = SegmentView { count: q, ..segment };
        let last = ChunkView {
            offset: (segment.offset + segment.unit.len() * q) as nat,
            bytes: segment.unit,
        };
        let tail = seq![last] + rest;
        lemma_expand_bytes(front, tail);
        assert(expand(segment) =~= expand(front).push(last));
        assert(expand(segment) + rest =~= expand(front) + tail);
        assert(tail.skip(1) =~= rest);
        assert(front.bytes() + (segment.unit + chunk_bytes(rest)) =~= (front.bytes()
            + segment.unit) + chunk_bytes(rest));
    }
}

} // verus!
