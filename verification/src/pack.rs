//! Packs the pieces of a file into chunks, finds the lines that a chunk
//! repeats from the one before it, and looks for lines too long for any chunk.

use crate::plan::{
    as_ints, increasing, span_tokens, spec_begin, spec_bounded, spec_tiles, tokens_between,
};
use vstd::prelude::*;

verus! {

/// The ends of the chunks made of the pieces from `i` on, where the chunk
/// being filled begins at line `start` and holds the pieces up to `i`. The
/// next piece joins it while the whole stays at or under `target`; else the
/// chunk is closed and the piece begins the next one.
pub open spec fn spec_pack(
    offs: Seq<usize>,
    ends: Seq<int>,
    i: int,
    start: int,
    target: usize,
) -> Seq<int>
    decreases ends.len() - i,
{
    if i < 1 {
        Seq::empty()
    } else if i >= ends.len() {
        seq![ends[i - 1]]
    } else if span_tokens(offs, start, ends[i]) <= target {
        spec_pack(offs, ends, i + 1, start, target)
    } else {
        seq![ends[i - 1]] + spec_pack(offs, ends, i + 1, ends[i - 1], target)
    }
}

/// The ends of the chunks into which the pieces of a file are packed, in
/// order, each chunk as full as `target` allows.
pub open spec fn spec_chunk_ends(offs: Seq<usize>, ends: Seq<int>, target: usize) -> Seq<int> {
    if ends.len() == 0 {
        Seq::empty()
    } else {
        spec_pack(offs, ends, 1, 0, target)
    }
}

/// Packed chunks tile the same lines as the pieces, end where pieces end,
/// and each is a single line or is estimated at most `max`.
pub proof fn lemma_pack(
    offs: Seq<usize>,
    ends: Seq<int>,
    i: int,
    start: int,
    target: usize,
    max: usize,
)
    requires
        increasing(offs),
        spec_tiles(ends, 0, offs.len() - 1),
        spec_bounded(offs, ends, 0, max),
        target <= max,
        1 <= i <= ends.len(),
        0 <= start < ends[i - 1],
        ends[i - 1] - start == 1 || span_tokens(offs, start, ends[i - 1]) <= max,
    ensures
        spec_tiles(spec_pack(offs, ends, i, start, target), start, offs.len() - 1),
        spec_bounded(offs, spec_pack(offs, ends, i, start, target), start, max),
        forall|k: int|
            0 <= k < spec_pack(offs, ends, i, start, target).len() ==> ends.contains(
                #[trigger] spec_pack(offs, ends, i, start, target)[k],
            ),
    decreases ends.len() - i,
{
    let r = spec_pack(offs, ends, i, start, target);
    if i >= ends.len() {
        assert(ends[i - 1] == r[0]);
    } else if span_tokens(offs, start, ends[i]) <= target {
        assert(ends[i - 1] < ends[i]);
        lemma_pack(offs, ends, i + 1, start, target, max);
    } else {
        assert(ends[i - 1] < ends[i]);
        assert(spec_begin(ends, 0, i) == ends[i - 1]);
        lemma_pack(offs, ends, i + 1, ends[i - 1], target, max);
        let tail = spec_pack(offs, ends, i + 1, ends[i - 1], target);
        assert(r =~= seq![ends[i - 1]] + tail);
        assert forall|a: int, b: int| 0 <= a < b < r.len() implies #[trigger] r[a] < #[trigger] r[b] by {
            if a == 0 {
                assert(r[b] == tail[b - 1]);
                assert(tail[0] <= tail[b - 1]);
            } else {
                assert(r[a] == tail[a - 1]);
                assert(r[b] == tail[b - 1]);
            }
        }
        assert forall|k: int| 0 <= k < r.len() implies {
            let b = spec_begin(r, start, k);
            ||| (#[trigger] r[k]) - b == 1
            ||| span_tokens(offs, b, r[k]) <= max
        } by {
            if k > 0 {
                assert(r[k] == tail[k - 1]);
                assert(spec_begin(r, start, k) == spec_begin(tail, ends[i - 1], k - 1));
            }
        }
        assert forall|k: int| 0 <= k < r.len() implies ends.contains(#[trigger] r[k]) by {
            if k > 0 {
                assert(r[k] == tail[k - 1]);
            }
        }
    }
}

/// Whether the span `b..e` is filled as packing fills a chunk: it stays at
/// or under `target`, or it is one piece alone.
pub open spec fn spec_filled(offs: Seq<usize>, ends: Seq<int>, b: int, e: int, target: usize) -> bool {
    ||| span_tokens(offs, b, e) <= target
    ||| forall|j: int| 0 <= j < ends.len() ==> !(b < #[trigger] ends[j] < e)
}

/// Whether the span that begins at `b` and ends at `e` could not have taken
/// one piece more: with any piece after it, it would be over `target`.
pub open spec fn spec_full(offs: Seq<usize>, ends: Seq<int>, b: int, e: int, target: usize) -> bool {
    forall|j: int|
        0 <= j < ends.len() && e < #[trigger] ends[j] ==> span_tokens(offs, b, ends[j]) > target
}

/// Whether every chunk of `chunks`, which begin at `start`, is filled.
pub open spec fn spec_all_filled(
    offs: Seq<usize>,
    ends: Seq<int>,
    chunks: Seq<int>,
    start: int,
    target: usize,
) -> bool {
    forall|k: int|
        0 <= k < chunks.len() ==> spec_filled(
            offs,
            ends,
            spec_begin(chunks, start, k),
            #[trigger] chunks[k],
            target,
        )
}

/// Whether every chunk of `chunks` but the last is full.
pub open spec fn spec_all_full(
    offs: Seq<usize>,
    ends: Seq<int>,
    chunks: Seq<int>,
    start: int,
    target: usize,
) -> bool {
    forall|k: int|
        0 <= k < chunks.len() - 1 ==> spec_full(
            offs,
            ends,
            spec_begin(chunks, start, k),
            #[trigger] chunks[k],
            target,
        )
}

/// Packing is greedy: every chunk stays at or under the target unless it is
/// one piece alone, and every chunk but the last is closed only because the
/// next piece would have lifted it over the target. A piece that brings a
/// chunk to the target exactly is still taken in.
pub proof fn lemma_pack_greedy(
    offs: Seq<usize>,
    ends: Seq<int>,
    i: int,
    start: int,
    target: usize,
)
    requires
        increasing(offs),
        spec_tiles(ends, 0, offs.len() - 1),
        1 <= i <= ends.len(),
        0 <= start < ends[i - 1],
        spec_filled(offs, ends, start, ends[i - 1], target),
    ensures
        spec_all_filled(offs, ends, spec_pack(offs, ends, i, start, target), start, target),
        spec_all_full(offs, ends, spec_pack(offs, ends, i, start, target), start, target),
    decreases ends.len() - i,
{
    let r = spec_pack(offs, ends, i, start, target);
    if i >= ends.len() {
        assert(r =~= seq![ends[i - 1]]);
        assert(spec_begin(r, start, 0) == start);
    } else if span_tokens(offs, start, ends[i]) <= target {
        assert(ends[i - 1] < ends[i]);
        lemma_pack_greedy(offs, ends, i + 1, start, target);
    } else {
        let closed = ends[i - 1];
        assert(closed < ends[i]);
        assert(ends[i] <= ends[ends.len() - 1]);
        assert(spec_filled(offs, ends, closed, ends[i], target)) by {
            assert forall|j: int| 0 <= j < ends.len() implies !(closed < #[trigger] ends[j]
                < ends[i]) by {
                if j < i {
                    if j < i - 1 {
                        assert(ends[j] < ends[i - 1]);
                    }
                } else if j > i {
                    assert(ends[i] < ends[j]);
                }
            }
        }
        lemma_pack_greedy(offs, ends, i + 1, closed, target);
        let tail = spec_pack(offs, ends, i + 1, closed, target);
        assert(r =~= seq![closed] + tail);
        assert(spec_full(offs, ends, start, closed, target)) by {
            assert forall|j: int| 0 <= j < ends.len() && closed < #[trigger] ends[j] implies span_tokens(
                offs,
                start,
                ends[j],
            ) > target by {
                if j < i {
                    if j < i - 1 {
                        assert(ends[j] < ends[i - 1]);
                    }
                } else if j > i {
                    assert(ends[i] < ends[j]);
                }
                assert(ends[j] <= ends[ends.len() - 1]);
                assert(offs[ends[i]] <= offs[ends[j]]) by {
                    if ends[i] < ends[j] {
                        assert(offs[ends[i]] < offs[ends[j]]);
                    }
                }
            }
        }
        assert(spec_all_filled(offs, ends, r, start, target)) by {
            assert forall|k: int| 0 <= k < r.len() implies spec_filled(
                offs,
                ends,
                spec_begin(r, start, k),
                #[trigger] r[k],
                target,
            ) by {
                if k > 0 {
                    assert(r[k] == tail[k - 1]);
                    assert(spec_begin(r, start, k) == spec_begin(tail, closed, k - 1));
                    assert(spec_filled(
                        offs,
                        ends,
                        spec_begin(tail, closed, k - 1),
                        tail[k - 1],
                        target,
                    ));
                } else {
                    assert(r[0] == closed);
                }
            }
        }
        assert(spec_all_full(offs, ends, r, start, target)) by {
            assert forall|k: int| 0 <= k < r.len() - 1 implies spec_full(
                offs,
                ends,
                spec_begin(r, start, k),
                #[trigger] r[k],
                target,
            ) by {
                if k > 0 {
                    assert(r[k] == tail[k - 1]);
                    assert(spec_begin(r, start, k) == spec_begin(tail, closed, k - 1));
                    assert(spec_full(
                        offs,
                        ends,
                        spec_begin(tail, closed, k - 1),
                        tail[k - 1],
                        target,
                    ));
                } else {
                    assert(r[0] == closed);
                }
            }
        }
    }
}

/// Packs the pieces of a file into chunks and returns the ends of the chunks.
pub fn pack(offs: &Vec<usize>, ends: &Vec<usize>, target: usize) -> (r: Vec<usize>)
    requires
        increasing(offs@),
        ends@.len() > 0 ==> spec_tiles(as_ints(ends@), 0, offs@.len() - 1),
    ensures
        as_ints(r@) == spec_chunk_ends(offs@, as_ints(ends@), target),
{
    let mut r: Vec<usize> = Vec::new();
    let n = ends.len();
    if n == 0 {
        assert(as_ints(r@) =~= Seq::<int>::empty());
        return r;
    }
    let ghost e = as_ints(ends@);
    let mut start: usize = 0;
    let mut i: usize = 1;
    assert(as_ints(r@) + spec_pack(offs@, e, 1, 0, target) =~= spec_pack(offs@, e, 1, 0, target));
    while i < n
        invariant
            increasing(offs@),
            spec_tiles(e, 0, offs@.len() - 1),
            e == as_ints(ends@),
            n == ends@.len(),
            1 <= i <= n,
            start < ends@[i - 1],
            as_ints(r@) + spec_pack(offs@, e, i as int, start as int, target) == spec_pack(
                offs@,
                e,
                1,
                0,
                target,
            ),
        decreases n - i,
    {
        assert(e[i - 1] < e[i as int]);
        assert(e[i as int] <= e[n - 1]);
        if tokens_between(offs, start, ends[i]) > target {
            let ghost sofar = r@;
            r.push(ends[i - 1]);
            assert(as_ints(r@) + spec_pack(offs@, e, i + 1, ends@[i - 1] as int, target)
                =~= as_ints(sofar) + spec_pack(offs@, e, i as int, start as int, target));
            start = ends[i - 1];
        }
        i = i + 1;
    }
    let ghost sofar = r@;
    r.push(ends[n - 1]);
    assert(as_ints(r@) =~= as_ints(sofar) + spec_pack(offs@, e, n as int, start as int, target));
    r
}

/// The line at which the text of a chunk begins: the lines `s..e` are the
/// chunk's own, and it takes before them the lines back to `t`, one more
/// while that stays at or after `floor`, keeps what is repeated at or under
/// `overlap` and the whole text at or under `max`.
pub open spec fn spec_overlap_start(
    offs: Seq<usize>,
    floor: int,
    t: int,
    s: int,
    e: int,
    overlap: usize,
    max: usize,
) -> int
    decreases t - floor,
{
    if t > floor && span_tokens(offs, t - 1, s) <= overlap && span_tokens(offs, t - 1, e) <= max {
        spec_overlap_start(offs, floor, t - 1, s, e, overlap, max)
    } else {
        t
    }
}

/// The line at which the text of chunk `i` begins. The first chunk repeats
/// nothing; a later one repeats lines of the chunk before it only.
pub open spec fn spec_text_start(
    offs: Seq<usize>,
    chunk_ends: Seq<int>,
    i: int,
    overlap: usize,
    max: usize,
) -> int {
    if i <= 0 {
        0
    } else {
        spec_overlap_start(
            offs,
            spec_begin(chunk_ends, 0, i - 1),
            chunk_ends[i - 1],
            chunk_ends[i - 1],
            chunk_ends[i],
            overlap,
            max,
        )
    }
}

/// The text of a chunk begins within the chunk before it, and what it adds
/// never lifts a chunk over `max` that was not over it alone.
pub proof fn lemma_overlap_start(
    offs: Seq<usize>,
    floor: int,
    t: int,
    s: int,
    e: int,
    overlap: usize,
    max: usize,
)
    requires
        floor <= t <= s,
    ensures
        floor <= spec_overlap_start(offs, floor, t, s, e, overlap, max) <= t,
        t == s || span_tokens(offs, t, e) <= max ==> {
            let r = spec_overlap_start(offs, floor, t, s, e, overlap, max);
            r == s || span_tokens(offs, r, e) <= max
        },
    decreases t - floor,
{
    if t > floor && span_tokens(offs, t - 1, s) <= overlap && span_tokens(offs, t - 1, e) <= max {
        lemma_overlap_start(offs, floor, t - 1, s, e, overlap, max);
    }
}

/// Whether a text that begins at line `t` is within bounds for the chunk
/// that owns the lines `s..e`: what it repeats is at or under `overlap`,
/// and the whole is at or under `max`.
pub open spec fn spec_within_bounds(
    offs: Seq<usize>,
    t: int,
    s: int,
    e: int,
    overlap: usize,
    max: usize,
) -> bool {
    span_tokens(offs, t, s) <= overlap && span_tokens(offs, t, e) <= max
}

/// A chunk repeats as many lines as the bounds allow: its text begins where
/// a text within bounds can begin the earliest, the start of the chunk
/// before it being the limit. No earlier line would do.
pub proof fn lemma_overlap_most(
    offs: Seq<usize>,
    floor: int,
    t: int,
    s: int,
    e: int,
    overlap: usize,
    max: usize,
)
    requires
        increasing(offs),
        0 <= floor <= t <= s <= e < offs.len(),
        t == s || spec_within_bounds(offs, t, s, e, overlap, max),
    ensures
        ({
            let r = spec_overlap_start(offs, floor, t, s, e, overlap, max);
            &&& r == s || spec_within_bounds(offs, r, s, e, overlap, max)
            &&& forall|earlier: int|
                floor <= earlier < r ==> !#[trigger] spec_within_bounds(
                    offs,
                    earlier,
                    s,
                    e,
                    overlap,
                    max,
                )
        }),
    decreases t - floor,
{
    if t > floor && span_tokens(offs, t - 1, s) <= overlap && span_tokens(offs, t - 1, e) <= max {
        lemma_overlap_most(offs, floor, t - 1, s, e, overlap, max);
    } else {
        assert forall|earlier: int| floor <= earlier < t implies !#[trigger] spec_within_bounds(
            offs,
            earlier,
            s,
            e,
            overlap,
            max,
        ) by {
            assert(offs[earlier] <= offs[t - 1]) by {
                if earlier < t - 1 {
                    assert(offs[earlier] < offs[t - 1]);
                }
            }
            assert(offs[t - 1] <= offs[s]) by {
                if t - 1 < s {
                    assert(offs[t - 1] < offs[s]);
                }
            }
            assert(offs[s] <= offs[e]) by {
                if s < e {
                    assert(offs[s] < offs[e]);
                }
            }
        }
    }
}

/// Finds the line at which the text of a chunk begins.
pub fn overlap_start(
    offs: &Vec<usize>,
    floor: usize,
    s: usize,
    e: usize,
    overlap: usize,
    max: usize,
) -> (r: usize)
    requires
        increasing(offs@),
        floor <= s <= e < offs@.len(),
    ensures
        r == spec_overlap_start(offs@, floor as int, s as int, s as int, e as int, overlap, max),
        floor <= r <= s,
{
    let mut t: usize = s;
    while t > floor && tokens_between(offs, t - 1, s) <= overlap && tokens_between(offs, t - 1, e)
        <= max
        invariant
            increasing(offs@),
            floor <= t <= s <= e < offs@.len(),
            spec_overlap_start(offs@, floor as int, s as int, s as int, e as int, overlap, max)
                == spec_overlap_start(
                offs@,
                floor as int,
                t as int,
                s as int,
                e as int,
                overlap,
                max,
            ),
        decreases t - floor,
    {
        t = t - 1;
    }
    t
}

/// The token estimate of line `l` alone.
pub open spec fn line_tokens(offs: Seq<usize>, l: int) -> int {
    span_tokens(offs, l, l + 1)
}

/// The first of the first `k` lines that alone is estimated over `max`.
pub open spec fn spec_long_line(offs: Seq<usize>, max: usize, k: int) -> Option<int>
    decreases k,
{
    if k <= 0 {
        None
    } else {
        match spec_long_line(offs, max, k - 1) {
            Some(l) => Some(l),
            None => if line_tokens(offs, k - 1) > max {
                Some(k - 1)
            } else {
                None
            },
        }
    }
}

/// What `spec_long_line` finds is a line over `max`, the first such; where
/// it finds none, no line is over `max`.
pub proof fn lemma_long_line(offs: Seq<usize>, max: usize, k: int)
    ensures
        spec_long_line(offs, max, k) matches Some(l) ==> 0 <= l < k && line_tokens(offs, l) > max
            && forall|j: int| 0 <= j < l ==> #[trigger] line_tokens(offs, j) <= max,
        spec_long_line(offs, max, k) is None ==> forall|j: int|
            0 <= j < k ==> #[trigger] line_tokens(offs, j) <= max,
    decreases k,
{
    if k > 0 {
        lemma_long_line(offs, max, k - 1);
    }
}

/// Finds the first line that alone is estimated over `max`, with its estimate.
pub fn long_line(offs: &Vec<usize>, max: usize) -> (r: Option<(usize, usize)>)
    requires
        increasing(offs@),
    ensures
        match r {
            Some((l, tokens)) => spec_long_line(offs@, max, offs@.len() - 1) == Some(l as int)
                && tokens == line_tokens(offs@, l as int),
            None => spec_long_line(offs@, max, offs@.len() - 1) is None,
        },
{
    let n = offs.len() - 1;
    let mut l: usize = 0;
    while l < n
        invariant
            increasing(offs@),
            n == offs@.len() - 1,
            l <= n,
            spec_long_line(offs@, max, l as int) is None,
        decreases n - l,
    {
        let tokens = tokens_between(offs, l, l + 1);
        if tokens > max {
            proof {
                lemma_long_line_stays(offs@, max, l + 1, n as int);
            }
            return Some((l, tokens));
        }
        l = l + 1;
    }
    None
}

proof fn lemma_long_line_stays(offs: Seq<usize>, max: usize, k: int, n: int)
    requires
        k <= n,
        spec_long_line(offs, max, k) is Some,
    ensures
        spec_long_line(offs, max, n) == spec_long_line(offs, max, k),
    decreases n - k,
{
    if k < n {
        lemma_long_line_stays(offs, max, k, n - 1);
    }
}

} // verus!
