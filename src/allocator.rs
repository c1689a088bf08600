//! Free-space discovery in the data region.
use vstd::prelude::*;
use crate::array::Array;

verus! {

/// Whether chunk `c` holds bytes on both sides of position `s`.
pub open spec fn straddles(c: Array, s: int) -> bool {
    c.offset < s && s < c.end_spec()
}

/// Whether no chunk straddles `s`.
pub open spec fn gap_start_ok(chunks: Seq<Array>, s: int) -> bool {
    forall|i: int| 0 <= i < chunks.len() ==> !straddles(#[trigger] chunks[i], s)
}

/// Where the gap starting at `s` ends: the least offset of a chunk that holds
/// bytes past `s`, or `limit` when there is none before it.
pub open spec fn gap_end(chunks: Seq<Array>, s: int, limit: int) -> int
    decreases chunks.len(),
{
    if chunks.len() == 0 {
        limit
    } else {
        let e = gap_end(chunks.drop_last(), s, limit);
        let c = chunks.last();
        if c.offset >= s && c.end_spec() > s && c.offset < e {
            c.offset as int
        } else {
            e
        }
    }
}

/// Whether a gap may start at `s`: at the data region's start or at the end
/// of a chunk, inside `[data_start, limit]`, and not inside a chunk.
pub open spec fn is_candidate(chunks: Seq<Array>, data_start: int, limit: int, s: int) -> bool {
    &&& (s == data_start || exists|i: int| 0 <= i < chunks.len() && (#[trigger] chunks[i]).end_spec() == s)
    &&& data_start <= s <= limit
    &&& gap_start_ok(chunks, s)
}

/// The length of the gap that starts at `s`.
pub open spec fn gap_len(chunks: Seq<Array>, s: int, limit: int) -> int {
    gap_end(chunks, s, limit) - s
}

/// Whether range `w` shares no position with any chunk.
pub open spec fn free(chunks: Seq<Array>, w: Array) -> bool {
    forall|i: int| 0 <= i < chunks.len() ==> !(#[trigger] chunks[i]).overlaps(w)
}

/// What a first-fit search over the gaps sorted by length returns: a range of
/// `min_space` bytes at the start of a gap that holds it, no longer than any
/// other such gap; `None` when no gap holds it.
pub open spec fn best_fit(
    chunks: Seq<Array>,
    data_start: int,
    limit: int,
    min_space: int,
    r: Option<Array>,
) -> bool {
    match r {
        Some(a) => {
            &&& a.length == min_space
            &&& is_candidate(chunks, data_start, limit, a.offset as int)
            &&& gap_len(chunks, a.offset as int, limit) >= min_space
            &&& forall|s: int|
                is_candidate(chunks, data_start, limit, s) && gap_len(chunks, s, limit) >= min_space
                    ==> gap_len(chunks, a.offset as int, limit) <= #[trigger] gap_len(
                    chunks,
                    s,
                    limit,
                )
        },
        None => forall|s: int|
            is_candidate(chunks, data_start, limit, s) ==> #[trigger] gap_len(chunks, s, limit)
                < min_space,
    }
}

pub proof fn lemma_gap_end(chunks: Seq<Array>, s: int, limit: int)
    requires
        s <= limit,
    ensures
        s <= gap_end(chunks, s, limit) <= limit,
        forall|i: int|
            0 <= i < chunks.len() && (#[trigger] chunks[i]).offset >= s && chunks[i].end_spec() > s
                ==> gap_end(chunks, s, limit) <= chunks[i].offset,
    decreases chunks.len(),
{
    if chunks.len() > 0 {
        lemma_gap_end(chunks.drop_last(), s, limit);
        assert forall|i: int|
            0 <= i < chunks.len() && (#[trigger] chunks[i]).offset >= s && chunks[i].end_spec()
                > s implies gap_end(chunks, s, limit) <= chunks[i].offset by {
            if i < chunks.len() - 1 {
                assert(chunks.drop_last()[i] == chunks[i]);
            }
        }
    }
}

proof fn lemma_gap_end_at_least(chunks: Seq<Array>, s: int, limit: int, x: int)
    requires
        x <= limit,
        forall|i: int|
            0 <= i < chunks.len() && (#[trigger] chunks[i]).offset >= s && chunks[i].end_spec() > s
                ==> chunks[i].offset >= x,
    ensures
        gap_end(chunks, s, limit) >= x,
    decreases chunks.len(),
{
    if chunks.len() > 0 {
        let d = chunks.drop_last();
        assert forall|i: int|
            0 <= i < d.len() && (#[trigger] d[i]).offset >= s && d[i].end_spec() > s implies d[i].offset
            >= x by {
            assert(d[i] == chunks[i]);
        }
        lemma_gap_end_at_least(d, s, limit, x);
        assert(chunks[chunks.len() - 1] == chunks.last());
    }
}

/// The greatest chunk end at or before `w`, or `data_start` when larger.
pub open spec fn last_end_before(chunks: Seq<Array>, data_start: int, w: int) -> int
    decreases chunks.len(),
{
    if chunks.len() == 0 {
        data_start
    } else {
        let e = last_end_before(chunks.drop_last(), data_start, w);
        let c = chunks.last();
        if c.end_spec() <= w && c.end_spec() > e {
            c.end_spec()
        } else {
            e
        }
    }
}

proof fn lemma_last_end_before(chunks: Seq<Array>, data_start: int, w: int)
    requires
        data_start <= w,
    ensures
        data_start <= last_end_before(chunks, data_start, w) <= w,
        last_end_before(chunks, data_start, w) == data_start || exists|i: int|
            0 <= i < chunks.len() && (#[trigger] chunks[i]).end_spec() == last_end_before(
                chunks,
                data_start,
                w,
            ),
        forall|i: int|
            0 <= i < chunks.len() && (#[trigger] chunks[i]).end_spec() <= w ==> chunks[i].end_spec()
                <= last_end_before(chunks, data_start, w),
    decreases chunks.len(),
{
    if chunks.len() > 0 {
        let d = chunks.drop_last();
        lemma_last_end_before(d, data_start, w);
        let e = last_end_before(d, data_start, w);
        if e != data_start {
            let j = choose|j: int| 0 <= j < d.len() && (#[trigger] d[j]).end_spec() == e;
            assert(chunks[j] == d[j]);
        }
        assert(chunks[chunks.len() - 1] == chunks.last());
        assert forall|i: int|
            0 <= i < chunks.len() && (#[trigger] chunks[i]).end_spec() <= w implies chunks[i].end_spec()
            <= last_end_before(chunks, data_start, w) by {
            if i < d.len() {
                assert(d[i] == chunks[i]);
            }
        }
    }
}

/// A range at the start of a candidate gap that holds it is free and lies in
/// `[data_start, limit)`.
pub proof fn lemma_fit_is_free(chunks: Seq<Array>, data_start: int, limit: int, a: Array)
    requires
        is_candidate(chunks, data_start, limit, a.offset as int),
        gap_len(chunks, a.offset as int, limit) >= a.length,
    ensures
        free(chunks, a),
        data_start <= a.offset,
        a.end_spec() <= limit,
{
    lemma_gap_end(chunks, a.offset as int, limit);
    assert forall|i: int| 0 <= i < chunks.len() implies !(#[trigger] chunks[i]).overlaps(a) by {
        assert(!straddles(chunks[i], a.offset as int));
    }
}

/// When some free range of `m` bytes lies in `[data_start, limit)`, some
/// candidate gap holds `m` bytes.
pub proof fn lemma_free_window_has_gap(
    chunks: Seq<Array>,
    data_start: int,
    limit: int,
    w: Array,
)
    requires
        free(chunks, w),
        data_start <= w.offset,
        w.end_spec() <= limit,
    ensures
        is_candidate(chunks, data_start, limit, last_end_before(chunks, data_start, w.offset as int)),
        gap_len(chunks, last_end_before(chunks, data_start, w.offset as int), limit) >= w.length,
{
    let s = last_end_before(chunks, data_start, w.offset as int);
    lemma_last_end_before(chunks, data_start, w.offset as int);
    assert forall|i: int| 0 <= i < chunks.len() implies !straddles(#[trigger] chunks[i], s) by {
        assert(!chunks[i].overlaps(w));
    }
    assert forall|i: int|
        0 <= i < chunks.len() && (#[trigger] chunks[i]).offset >= s && chunks[i].end_spec()
            > s implies chunks[i].offset >= w.end_spec() by {
        assert(!chunks[i].overlaps(w));
    }
    lemma_gap_end_at_least(chunks, s, limit, w.end_spec());
}

fn gap_start_ok_exec(chunks: &Vec<Array>, s: u64) -> (r: bool)
    ensures
        r == gap_start_ok(chunks@, s as int),
{
    let mut i: usize = 0;
    while i < chunks.len()
        invariant
            i <= chunks@.len(),
            forall|j: int| 0 <= j < i ==> !straddles(#[trigger] chunks@[j], s as int),
        decreases chunks@.len() - i,
    {
        let c = chunks[i];
        if c.offset < s && (s as u128) < (c.offset as u128) + (c.length as u128) {
            return false;
        }
        i = i + 1;
    }
    true
}

fn gap_end_exec(chunks: &Vec<Array>, s: u64, limit: u64) -> (r: u64)
    requires
        s <= limit,
    ensures
        r == gap_end(chunks@, s as int, limit as int),
{
    let mut e = limit;
    let mut i: usize = 0;
    assert(chunks@.take(0) =~= Seq::<Array>::empty());
    while i < chunks.len()
        invariant
            i <= chunks@.len(),
            e == gap_end(chunks@.take(i as int), s as int, limit as int),
        decreases chunks@.len() - i,
    {
        let c = chunks[i];
        proof {
            assert(chunks@.take(i + 1).drop_last() =~= chunks@.take(i as int));
            assert(chunks@.take(i + 1).last() == c);
        }
        if c.offset >= s && (c.offset as u128) + (c.length as u128) > s as u128 && c.offset < e {
            e = c.offset;
        }
        i = i + 1;
    }
    assert(chunks@.take(i as int) =~= chunks@);
    e
}

/// The length of the gap starting at `start`, when a gap may start there.
fn gap_at(chunks: &Vec<Array>, data_start: u64, limit: u64, start: u128) -> (r: Option<u64>)
    ensures
        r is Some <==> (data_start <= start <= limit && gap_start_ok(chunks@, start as int)),
        r matches Some(len) ==> len == gap_len(chunks@, start as int, limit as int),
{
    if data_start as u128 <= start && start <= limit as u128 {
        let s64 = start as u64;
        if gap_start_ok_exec(chunks, s64) {
            let e = gap_end_exec(chunks, s64, limit);
            proof {
                lemma_gap_end(chunks@, s64 as int, limit as int);
            }
            return Some(e - s64);
        }
    }
    None
}

/// Finds room for `min_space` bytes in `[data_start, limit)` between the
/// chunks: the smallest gap that holds them, starting either at `data_start`
/// or at the end of a chunk.
pub fn find_gap(chunks: &Vec<Array>, data_start: u64, limit: u64, min_space: u64) -> (r: Option<
    Array,
>)
    ensures
        best_fit(chunks@, data_start as int, limit as int, min_space as int, r),
{
    let n = chunks.len();
    let mut best: Option<Array> = None;
    let mut best_len: u64 = 0;
    match gap_at(chunks, data_start, limit, data_start as u128) {
        Some(len) => {
            if len >= min_space {
                best = Some(Array { offset: data_start, length: min_space });
                best_len = len;
            }
        },
        None => {},
    }
    let mut k: usize = 0;
    while k < n
        invariant
            n == chunks@.len(),
            k <= n,
            match best {
                Some(a) => {
                    &&& a.length == min_space
                    &&& is_candidate(chunks@, data_start as int, limit as int, a.offset as int)
                    &&& gap_len(chunks@, a.offset as int, limit as int) == best_len
                    &&& best_len >= min_space
                },
                None => true,
            },
            forall|s: int|
                #![trigger gap_len(chunks@, s, limit as int)]
                is_candidate(chunks@, data_start as int, limit as int, s) && gap_len(
                    chunks@,
                    s,
                    limit as int,
                ) >= min_space && (s == data_start || exists|j: int|
                    0 <= j < k && (#[trigger] chunks@[j]).end_spec() == s) ==> (best matches Some(
                    _,
                ) && best_len <= gap_len(chunks@, s, limit as int)),
        decreases n - k,
    {
        let c = chunks[k];
        let start = (c.offset as u128) + (c.length as u128);
        let ghost s = start as int;
        match gap_at(chunks, data_start, limit, start) {
            Some(len) => {
                assert(chunks@[k as int].end_spec() == s);
                if len >= min_space && (best.is_none() || len < best_len) {
                    best = Some(Array { offset: start as u64, length: min_space });
                    best_len = len;
                }
            },
            None => {},
        }
        let ghost prev_k = k;
        k = k + 1;
        proof {
            assert forall|t: int|
                #![trigger gap_len(chunks@, t, limit as int)]
                is_candidate(chunks@, data_start as int, limit as int, t) && gap_len(
                    chunks@,
                    t,
                    limit as int,
                ) >= min_space && (t == data_start || exists|j: int|
                    0 <= j < k && (#[trigger] chunks@[j]).end_spec() == t) implies (
            best matches Some(_) && best_len <= gap_len(chunks@, t, limit as int)) by {
                if t != data_start {
                    let j = choose|j: int| 0 <= j < k && (#[trigger] chunks@[j]).end_spec() == t;
                    if j < prev_k {
                    } else {
                        assert(t == s);
                    }
                }
            }
        }
    }
    proof {
        assert forall|t: int|
            #![trigger gap_len(chunks@, t, limit as int)]
            is_candidate(chunks@, data_start as int, limit as int, t) && gap_len(
                chunks@,
                t,
                limit as int,
            ) >= min_space implies (best matches Some(_) && best_len <= gap_len(
            chunks@,
            t,
            limit as int,
        )) by {
            if t != data_start {
                let j = choose|j: int| 0 <= j < chunks@.len() && (#[trigger] chunks@[j]).end_spec() == t;
                assert(0 <= j < k);
            }
        }
    }
    best
}

} // verus!
