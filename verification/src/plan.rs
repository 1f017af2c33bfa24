//! Cuts a file into pieces along its lines: at the coarsest syntax boundary
//! first, at ever finer ones inside what is still too large, and at the
//! middle line where no boundary is left.

use crate::text::{spec_tokens, tokens_for_length};
use vstd::prelude::*;

verus! {

/// Whether line offsets begin at zero and strictly increase.
pub open spec fn increasing(offs: Seq<usize>) -> bool {
    &&& offs.len() >= 1
    &&& offs[0] == 0
    &&& forall|i: int, j: int| 0 <= i < j < offs.len() ==> #[trigger] offs[i] < #[trigger] offs[j]
}

/// The token estimate of the lines `lo..hi`.
pub open spec fn span_tokens(offs: Seq<usize>, lo: int, hi: int) -> int {
    spec_tokens(offs[hi] - offs[lo])
}

/// The token estimate of the lines `lo..hi`.
pub fn tokens_between(offs: &Vec<usize>, lo: usize, hi: usize) -> (r: usize)
    requires
        increasing(offs@),
        lo <= hi < offs@.len(),
    ensures
        r == span_tokens(offs@, lo as int, hi as int),
{
    tokens_for_length(offs[hi] - offs[lo])
}

/// The smaller of two levels, where `None` stands for no boundary.
pub open spec fn spec_lower(a: Option<usize>, b: Option<usize>) -> Option<usize> {
    match (a, b) {
        (None, _) => b,
        (_, None) => a,
        (Some(x), Some(y)) => if x <= y {
            a
        } else {
            b
        },
    }
}

/// The lowest level of a boundary before one of the lines `lo..hi`.
pub open spec fn spec_min_level(levels: Seq<Option<usize>>, lo: int, hi: int) -> Option<usize>
    decreases hi - lo,
{
    if hi <= lo {
        None
    } else {
        spec_lower(spec_min_level(levels, lo, hi - 1), levels[hi - 1])
    }
}

/// Whether a line begins at a boundary of level `m` or coarser.
pub open spec fn spec_is_cut(level: Option<usize>, m: usize) -> bool {
    level matches Some(v) && v <= m
}

/// The first of the lines `from..hi` that begins at a boundary of level `m`
/// or coarser, or `hi` where none does.
pub open spec fn spec_next_cut(levels: Seq<Option<usize>>, from: int, hi: int, m: usize) -> int
    decreases hi - from,
{
    if from >= hi {
        hi
    } else if spec_is_cut(levels[from], m) {
        from
    } else {
        spec_next_cut(levels, from + 1, hi, m)
    }
}

/// Where the lowest level among some lines is `m`, one of them begins at a
/// boundary of that level, so the search for the next such boundary ends
/// before `hi`.
pub proof fn lemma_min_level_found(levels: Seq<Option<usize>>, lo: int, hi: int)
    requires
        lo <= hi,
    ensures
        spec_min_level(levels, lo, hi) matches Some(m) ==> lo <= spec_next_cut(levels, lo, hi, m)
            < hi,
{
    match spec_min_level(levels, lo, hi) {
        Some(m) => {
            lemma_min_level_is_lowest(levels, lo, hi);
            let l = choose|l: int| lo <= l < hi && #[trigger] spec_is_cut(levels[l], m);
            lemma_next_cut_finds(levels, lo, hi, m, l);
        },
        None => {},
    }
}

proof fn lemma_min_level_is_lowest(levels: Seq<Option<usize>>, lo: int, hi: int)
    requires
        lo <= hi,
    ensures
        spec_min_level(levels, lo, hi) matches Some(m) ==> exists|l: int|
            lo <= l < hi && #[trigger] spec_is_cut(levels[l], m),
    decreases hi - lo,
{
    if lo < hi {
        lemma_min_level_is_lowest(levels, lo, hi - 1);
        match spec_min_level(levels, lo, hi) {
            Some(m) => {
                if levels[hi - 1] == Some(m) {
                    assert(spec_is_cut(levels[hi - 1], m));
                } else {
                    let l = choose|l: int| lo <= l < hi - 1 && #[trigger] spec_is_cut(levels[l], m);
                    assert(spec_is_cut(levels[l], m));
                }
            },
            None => {},
        }
    }
}

proof fn lemma_next_cut_finds(levels: Seq<Option<usize>>, from: int, hi: int, m: usize, l: int)
    requires
        from <= l < hi,
        spec_is_cut(levels[l], m),
    ensures
        from <= spec_next_cut(levels, from, hi, m) <= l,
    decreases hi - from,
{
    if !spec_is_cut(levels[from], m) {
        lemma_next_cut_finds(levels, from + 1, hi, m, l);
    }
}

/// The ends of the pieces into which the lines `lo..hi` are cut. A span that
/// is a single line, or is estimated at most `max`, is one piece. Any other
/// is cut at every boundary of the coarsest level found inside it, or, where
/// it holds no boundary, at its middle line; and each part is cut in turn.
/// (Where a coarsest level is found, so is a boundary of it: see
/// `lemma_min_level_found`. The branch for the other case is there for the
/// definition to be total.)
pub open spec fn spec_plan(
    offs: Seq<usize>,
    levels: Seq<Option<usize>>,
    lo: int,
    hi: int,
    max: usize,
) -> Seq<int>
    decreases hi - lo, 0int,
{
    if hi - lo <= 1 || span_tokens(offs, lo, hi) <= max {
        seq![hi]
    } else {
        let mid = lo + (hi - lo) / 2;
        match spec_min_level(levels, lo + 1, hi) {
            None => spec_plan(offs, levels, lo, mid, max) + spec_plan(offs, levels, mid, hi, max),
            Some(m) => {
                let c = spec_next_cut(levels, lo + 1, hi, m);
                if lo < c < hi {
                    spec_plan(offs, levels, lo, c, max) + spec_rest(offs, levels, c, hi, m, max)
                } else {
                    spec_plan(offs, levels, lo, mid, max) + spec_plan(offs, levels, mid, hi, max)
                }
            },
        }
    }
}

/// The ends of the pieces of the lines `c..hi`, which are first cut at every
/// boundary of level `m` or coarser.
pub open spec fn spec_rest(
    offs: Seq<usize>,
    levels: Seq<Option<usize>>,
    c: int,
    hi: int,
    m: usize,
    max: usize,
) -> Seq<int>
    decreases hi - c, 1int,
{
    let next = spec_next_cut(levels, c + 1, hi, m);
    if c < next < hi {
        spec_plan(offs, levels, c, next, max) + spec_rest(offs, levels, next, hi, m, max)
    } else {
        spec_plan(offs, levels, c, hi, max)
    }
}

/// The ends of the pieces of a whole file of `n` lines: it is cut at the
/// boundaries of level zero, and each part that is too large is cut further.
pub open spec fn spec_pieces(
    offs: Seq<usize>,
    levels: Seq<Option<usize>>,
    max: usize,
) -> Seq<int> {
    let n = offs.len() - 1;
    if n <= 0 {
        Seq::empty()
    } else {
        spec_rest(offs, levels, 0, n, 0, max)
    }
}

/// Whether `ends` are the ends of consecutive non-empty spans that begin at
/// `lo` and finish at `hi`.
pub open spec fn spec_tiles(ends: Seq<int>, lo: int, hi: int) -> bool {
    &&& ends.len() >= 1
    &&& lo < ends[0]
    &&& ends[ends.len() - 1] == hi
    &&& forall|i: int, j: int| 0 <= i < j < ends.len() ==> #[trigger] ends[i] < #[trigger] ends[j]
}

/// The line at which span `i` of a tiling begins.
pub open spec fn spec_begin(ends: Seq<int>, lo: int, i: int) -> int {
    if i <= 0 {
        lo
    } else {
        ends[i - 1]
    }
}

/// Whether every span of a tiling is a single line or is estimated at most `max`.
pub open spec fn spec_bounded(offs: Seq<usize>, ends: Seq<int>, lo: int, max: usize) -> bool {
    forall|i: int|
        0 <= i < ends.len() ==> {
            let b = spec_begin(ends, lo, i);
            ||| (#[trigger] ends[i]) - b == 1
            ||| span_tokens(offs, b, ends[i]) <= max
        }
}

/// Two tilings that meet make one.
pub proof fn lemma_tiles_join(
    offs: Seq<usize>,
    a: Seq<int>,
    b: Seq<int>,
    lo: int,
    mid: int,
    hi: int,
    max: usize,
)
    requires
        spec_tiles(a, lo, mid),
        spec_tiles(b, mid, hi),
        spec_bounded(offs, a, lo, max),
        spec_bounded(offs, b, mid, max),
    ensures
        spec_tiles(a + b, lo, hi),
        spec_bounded(offs, a + b, lo, max),
{
    let s = a + b;
    assert forall|i: int, j: int| 0 <= i < j < s.len() implies #[trigger] s[i] < #[trigger] s[j] by {
        if j < a.len() {
        } else if i >= a.len() {
            assert(s[i] == b[i - a.len()]);
            assert(s[j] == b[j - a.len()]);
        } else {
            assert(s[i] == a[i]);
            assert(s[j] == b[j - a.len()]);
            assert(a[i] <= a[a.len() - 1]);
            assert(b[0] <= b[j - a.len()]);
        }
    }
    assert forall|i: int| 0 <= i < s.len() implies {
        let st = spec_begin(s, lo, i);
        ||| (#[trigger] s[i]) - st == 1
        ||| span_tokens(offs, st, s[i]) <= max
    } by {
        if i < a.len() {
            assert(s[i] == a[i]);
            assert(spec_begin(s, lo, i) == spec_begin(a, lo, i));
        } else {
            let k = i - a.len();
            assert(s[i] == b[k]);
            assert(spec_begin(s, lo, i) == spec_begin(b, mid, k));
        }
    }
}

/// The pieces of a span tile it, and each is a single line or is estimated
/// at most `max`.
pub proof fn lemma_plan(offs: Seq<usize>, levels: Seq<Option<usize>>, lo: int, hi: int, max: usize)
    requires
        lo < hi,
    ensures
        spec_tiles(spec_plan(offs, levels, lo, hi, max), lo, hi),
        spec_bounded(offs, spec_plan(offs, levels, lo, hi, max), lo, max),
    decreases hi - lo, 0int,
{
    if hi - lo <= 1 || span_tokens(offs, lo, hi) <= max {
    } else {
        let mid = lo + (hi - lo) / 2;
        let halves = spec_plan(offs, levels, lo, mid, max) + spec_plan(offs, levels, mid, hi, max);
        match spec_min_level(levels, lo + 1, hi) {
            None => {
                lemma_plan(offs, levels, lo, mid, max);
                lemma_plan(offs, levels, mid, hi, max);
                lemma_tiles_join(
                    offs,
                    spec_plan(offs, levels, lo, mid, max),
                    spec_plan(offs, levels, mid, hi, max),
                    lo,
                    mid,
                    hi,
                    max,
                );
            },
            Some(m) => {
                let c = spec_next_cut(levels, lo + 1, hi, m);
                if lo < c < hi {
                    lemma_plan(offs, levels, lo, c, max);
                    lemma_rest(offs, levels, c, hi, m, max);
                    lemma_tiles_join(
                        offs,
                        spec_plan(offs, levels, lo, c, max),
                        spec_rest(offs, levels, c, hi, m, max),
                        lo,
                        c,
                        hi,
                        max,
                    );
                } else {
                    lemma_plan(offs, levels, lo, mid, max);
                    lemma_plan(offs, levels, mid, hi, max);
                    lemma_tiles_join(
                        offs,
                        spec_plan(offs, levels, lo, mid, max),
                        spec_plan(offs, levels, mid, hi, max),
                        lo,
                        mid,
                        hi,
                        max,
                    );
                }
            },
        }
    }
}

/// As `lemma_plan`, for a span that is first cut at one level.
pub proof fn lemma_rest(
    offs: Seq<usize>,
    levels: Seq<Option<usize>>,
    c: int,
    hi: int,
    m: usize,
    max: usize,
)
    requires
        c < hi,
    ensures
        spec_tiles(spec_rest(offs, levels, c, hi, m, max), c, hi),
        spec_bounded(offs, spec_rest(offs, levels, c, hi, m, max), c, max),
    decreases hi - c, 1int,
{
    let next = spec_next_cut(levels, c + 1, hi, m);
    if c < next < hi {
        lemma_plan(offs, levels, c, next, max);
        lemma_rest(offs, levels, next, hi, m, max);
        lemma_tiles_join(
            offs,
            spec_plan(offs, levels, c, next, max),
            spec_rest(offs, levels, next, hi, m, max),
            c,
            next,
            hi,
            max,
        );
    } else {
        lemma_plan(offs, levels, c, hi, max);
    }
}

/// Every line of a tiled range lies in one of its spans: the proof hands
/// out the span that holds `line`, looking from span `i` on.
pub proof fn lemma_tile_holds(ends: Seq<int>, lo: int, hi: int, line: int, i: int) -> (w: int)
    requires
        spec_tiles(ends, lo, hi),
        0 <= i < ends.len(),
        spec_begin(ends, lo, i) < line <= hi,
    ensures
        0 <= w < ends.len(),
        spec_begin(ends, lo, w) < line <= ends[w],
    decreases ends.len() - i,
{
    if line <= ends[i] {
        i
    } else {
        lemma_tile_holds(ends, lo, hi, line, i + 1)
    }
}

/// Whether the lines `s..t` are a unit of level `level` that may stay
/// whole: it is estimated at most `max`, a boundary of that level or
/// coarser lies before its first line and after its last (where the file
/// does not begin or end there), and none lies inside it.
pub open spec fn spec_whole_unit(
    offs: Seq<usize>,
    levels: Seq<Option<usize>>,
    s: int,
    t: int,
    level: usize,
    max: usize,
) -> bool {
    &&& 0 <= s < t < offs.len()
    &&& levels.len() == offs.len()
    &&& span_tokens(offs, s, t) <= max
    &&& s > 0 ==> spec_is_cut(levels[s], level)
    &&& t < offs.len() - 1 ==> spec_is_cut(levels[t], level)
    &&& forall|l: int| s < l < t ==> !spec_is_cut(#[trigger] levels[l], level)
}

/// Whether none of `ends` lies inside the lines `s..t`: none of the spans
/// that end there cuts them in two.
pub open spec fn spec_clear(ends: Seq<int>, s: int, t: int) -> bool {
    forall|i: int| 0 <= i < ends.len() ==> !(s < #[trigger] ends[i] < t)
}

proof fn lemma_min_level_upper(levels: Seq<Option<usize>>, lo: int, hi: int, l: int, level: usize)
    requires
        lo <= l < hi,
        spec_is_cut(levels[l], level),
    ensures
        spec_min_level(levels, lo, hi) matches Some(m) && m <= level,
    decreases hi - lo,
{
    if l < hi - 1 {
        lemma_min_level_upper(levels, lo, hi - 1, l, level);
    }
}

proof fn lemma_next_cut_is_cut(levels: Seq<Option<usize>>, from: int, hi: int, m: usize)
    requires
        from <= hi,
    ensures
        from <= spec_next_cut(levels, from, hi, m) <= hi,
        spec_next_cut(levels, from, hi, m) < hi ==> spec_is_cut(
            levels[spec_next_cut(levels, from, hi, m)],
            m,
        ),
    decreases hi - from,
{
    if from < hi && !spec_is_cut(levels[from], m) {
        lemma_next_cut_is_cut(levels, from + 1, hi, m);
    }
}

proof fn lemma_clear_join(a: Seq<int>, b: Seq<int>, s: int, t: int)
    requires
        spec_clear(a, s, t),
        spec_clear(b, s, t),
    ensures
        spec_clear(a + b, s, t),
{
    let c = a + b;
    assert forall|i: int| 0 <= i < c.len() implies !(s < #[trigger] c[i] < t) by {
        if i < a.len() {
            assert(c[i] == a[i]);
        } else {
            assert(c[i] == b[i - a.len()]);
        }
    }
}

proof fn lemma_tiles_clear(ends: Seq<int>, lo: int, hi: int, s: int, t: int)
    requires
        spec_tiles(ends, lo, hi),
        hi <= s || t <= lo,
    ensures
        spec_clear(ends, s, t),
{
    assert forall|i: int| 0 <= i < ends.len() implies !(s < #[trigger] ends[i] < t) by {
        assert(ends[0] <= ends[i]);
        assert(ends[i] <= ends[ends.len() - 1]);
    }
}

/// A unit that may stay whole is not cut: no piece of a span that holds the
/// unit, or lies apart from it, ends inside the unit.
pub proof fn lemma_plan_clear(
    offs: Seq<usize>,
    levels: Seq<Option<usize>>,
    lo: int,
    hi: int,
    max: usize,
    s: int,
    t: int,
    level: usize,
)
    requires
        spec_whole_unit(offs, levels, s, t, level, max),
        0 <= lo < hi < offs.len(),
        (lo <= s && t <= hi) || hi <= s || t <= lo,
    ensures
        spec_clear(spec_plan(offs, levels, lo, hi, max), s, t),
    decreases hi - lo, 0int,
{
    if hi <= s || t <= lo {
        lemma_plan(offs, levels, lo, hi, max);
        lemma_tiles_clear(spec_plan(offs, levels, lo, hi, max), lo, hi, s, t);
    } else if hi - lo <= 1 || span_tokens(offs, lo, hi) <= max {
    } else {
        let l = if lo < s {
            s
        } else {
            t
        };
        assert(lo < l < hi);
        assert(spec_is_cut(levels[l], level));
        lemma_min_level_upper(levels, lo + 1, hi, l, level);
        lemma_min_level_found(levels, lo + 1, hi);
        let m = spec_min_level(levels, lo + 1, hi)->0;
        let c = spec_next_cut(levels, lo + 1, hi, m);
        lemma_next_cut_is_cut(levels, lo + 1, hi, m);
        assert(spec_is_cut(levels[c], m));
        assert(spec_is_cut(levels[c], level));
        assert(c <= s || t <= c);
        lemma_plan_clear(offs, levels, lo, c, max, s, t, level);
        lemma_rest_clear(offs, levels, c, hi, m, max, s, t, level);
        lemma_clear_join(
            spec_plan(offs, levels, lo, c, max),
            spec_rest(offs, levels, c, hi, m, max),
            s,
            t,
        );
    }
}

/// As `lemma_plan_clear`, for a span that is first cut at one level, no
/// finer than the unit's.
pub proof fn lemma_rest_clear(
    offs: Seq<usize>,
    levels: Seq<Option<usize>>,
    c: int,
    hi: int,
    m: usize,
    max: usize,
    s: int,
    t: int,
    level: usize,
)
    requires
        spec_whole_unit(offs, levels, s, t, level, max),
        0 <= c < hi < offs.len(),
        m <= level,
        (c <= s && t <= hi) || hi <= s || t <= c,
    ensures
        spec_clear(spec_rest(offs, levels, c, hi, m, max), s, t),
    decreases hi - c, 1int,
{
    let next = spec_next_cut(levels, c + 1, hi, m);
    lemma_next_cut_is_cut(levels, c + 1, hi, m);
    if c < next < hi {
        assert(spec_is_cut(levels[next], level));
        assert(next <= s || t <= next);
        lemma_plan_clear(offs, levels, c, next, max, s, t, level);
        lemma_rest_clear(offs, levels, next, hi, m, max, s, t, level);
        lemma_clear_join(
            spec_plan(offs, levels, c, next, max),
            spec_rest(offs, levels, next, hi, m, max),
            s,
            t,
        );
    } else {
        lemma_plan_clear(offs, levels, c, hi, max, s, t, level);
    }
}

/// No piece of a file ends inside a unit that may stay whole.
pub proof fn lemma_pieces_clear(
    offs: Seq<usize>,
    levels: Seq<Option<usize>>,
    max: usize,
    s: int,
    t: int,
    level: usize,
)
    requires
        spec_whole_unit(offs, levels, s, t, level, max),
    ensures
        spec_clear(spec_pieces(offs, levels, max), s, t),
{
    lemma_rest_clear(offs, levels, 0, offs.len() - 1, 0, max, s, t, level);
}

/// The lowest level of a boundary before one of the lines `lo..hi`.
pub fn min_level(levels: &Vec<Option<usize>>, lo: usize, hi: usize) -> (r: Option<usize>)
    requires
        lo <= hi <= levels@.len(),
    ensures
        r == spec_min_level(levels@, lo as int, hi as int),
{
    let mut r: Option<usize> = None;
    let mut l: usize = lo;
    while l < hi
        invariant
            lo <= l <= hi <= levels@.len(),
            r == spec_min_level(levels@, lo as int, l as int),
        decreases hi - l,
    {
        r = match (r, levels[l]) {
            (None, b) => b,
            (a, None) => a,
            (Some(x), Some(y)) => if x <= y {
                Some(x)
            } else {
                Some(y)
            },
        };
        l = l + 1;
    }
    r
}

/// The first of the lines `from..hi` that begins at a boundary of level `m`
/// or coarser, or `hi` where none does.
pub fn next_cut(levels: &Vec<Option<usize>>, from: usize, hi: usize, m: usize) -> (r: usize)
    requires
        from <= hi <= levels@.len(),
    ensures
        r == spec_next_cut(levels@, from as int, hi as int, m),
        from <= r <= hi,
{
    let mut l: usize = from;
    while l < hi
        invariant
            from <= l <= hi <= levels@.len(),
            spec_next_cut(levels@, from as int, hi as int, m) == spec_next_cut(
                levels@,
                l as int,
                hi as int,
                m,
            ),
        decreases hi - l,
    {
        match levels[l] {
            Some(v) => {
                if v <= m {
                    return l;
                }
            },
            None => {},
        }
        l = l + 1;
    }
    hi
}

/// The numbers of a vector as mathematical integers.
pub open spec fn as_ints(v: Seq<usize>) -> Seq<int> {
    Seq::new(v.len(), |i: int| v[i] as int)
}

/// A span of lines that waits to be cut into pieces. Where `level` is
/// given, the span is first cut at every boundary of that level or coarser.
pub struct Span {
    pub lo: usize,
    pub hi: usize,
    pub level: Option<usize>,
}

impl Span {
    /// The ends of the pieces of the span.
    pub open spec fn pieces(
        self,
        offs: Seq<usize>,
        levels: Seq<Option<usize>>,
        max: usize,
    ) -> Seq<int> {
        match self.level {
            None => spec_plan(offs, levels, self.lo as int, self.hi as int, max),
            Some(m) => spec_rest(offs, levels, self.lo as int, self.hi as int, m, max),
        }
    }

    /// The span holds at least one line, and only lines of the file.
    pub open spec fn wf(self, offs: Seq<usize>) -> bool {
        self.lo < self.hi < offs.len()
    }

    /// What is left to do on a span: every step on a span that is not yet a
    /// piece leaves spans that together weigh less.
    pub open spec fn weight(self) -> int {
        match self.level {
            None => 3 * (self.hi - self.lo) - 2,
            Some(_) => 3 * (self.hi - self.lo) - 1,
        }
    }
}

/// The ends of the pieces of the spans of a stack, the top of the stack
/// (its last entry) first.
pub open spec fn spec_pending(
    stack: Seq<Span>,
    offs: Seq<usize>,
    levels: Seq<Option<usize>>,
    max: usize,
) -> Seq<int>
    decreases stack.len(),
{
    if stack.len() == 0 {
        Seq::empty()
    } else {
        stack.last().pieces(offs, levels, max) + spec_pending(
            stack.drop_last(),
            offs,
            levels,
            max,
        )
    }
}

/// What is left to do on the spans of a stack.
pub open spec fn spec_weight(stack: Seq<Span>) -> int
    decreases stack.len(),
{
    if stack.len() == 0 {
        0
    } else {
        stack.last().weight() + spec_weight(stack.drop_last())
    }
}

proof fn lemma_weight_positive(stack: Seq<Span>, offs: Seq<usize>)
    requires
        forall|i: int| 0 <= i < stack.len() ==> (#[trigger] stack[i]).wf(offs),
    ensures
        spec_weight(stack) >= 0,
    decreases stack.len(),
{
    if stack.len() > 0 {
        assert(stack.last().wf(offs));
        lemma_weight_positive(stack.drop_last(), offs);
    }
}

/// A stack with one more span on top weighs that span more, and its pieces
/// are those of the span followed by those of the stack below.
proof fn lemma_pushed(
    stack: Seq<Span>,
    top: Span,
    offs: Seq<usize>,
    levels: Seq<Option<usize>>,
    max: usize,
)
    ensures
        spec_weight(stack.push(top)) == top.weight() + spec_weight(stack),
        spec_pending(stack.push(top), offs, levels, max) == top.pieces(offs, levels, max)
            + spec_pending(stack, offs, levels, max),
{
    assert(stack.push(top).drop_last() =~= stack);
    assert(stack.push(top).last() == top);
}

/// Cuts a span into pieces and returns their ends. The spans that wait are
/// kept on a stack of their own, so that a deeply nested file costs memory
/// on the heap only.
pub fn plan_span(offs: &Vec<usize>, levels: &Vec<Option<usize>>, first: Span, max: usize) -> (out:
    Vec<usize>)
    requires
        increasing(offs@),
        levels@.len() == offs@.len(),
        first.wf(offs@),
    ensures
        as_ints(out@) == first.pieces(offs@, levels@, max),
{
    let ghost whole = first.pieces(offs@, levels@, max);
    let mut out: Vec<usize> = Vec::new();
    let mut stack: Vec<Span> = Vec::new();
    proof {
        lemma_pushed(stack@, first, offs@, levels@, max);
        assert(as_ints(out@) + (whole + Seq::<int>::empty()) =~= whole);
    }
    stack.push(first);
    while stack.len() > 0
        invariant
            increasing(offs@),
            levels@.len() == offs@.len(),
            forall|i: int| 0 <= i < stack@.len() ==> (#[trigger] stack@[i]).wf(offs@),
            as_ints(out@) + spec_pending(stack@, offs@, levels@, max) == whole,
        ensures
            stack@.len() == 0,
        decreases spec_weight(stack@),
    {
        let ghost before = stack@;
        let ghost done = out@;
        let span = match stack.pop() {
            Some(span) => span,
            None => {
                break ;
            },
        };
        let ghost below = stack@;
        let lo = span.lo;
        let hi = span.hi;
        proof {
            assert(before.last() == span);
            assert(before.drop_last() =~= below);
            assert(span.wf(offs@));
            lemma_weight_positive(below, offs@);
            assert(as_ints(done) + (span.pieces(offs@, levels@, max) + spec_pending(
                below,
                offs@,
                levels@,
                max,
            )) == whole);
        }
        match span.level {
            None => {
                if hi - lo <= 1 || tokens_between(offs, lo, hi) <= max {
                    out.push(hi);
                    assert(as_ints(out@) =~= as_ints(done) + seq![hi as int]);
                    assert(as_ints(out@) + spec_pending(below, offs@, levels@, max) =~= whole);
                } else {
                    let (second, head) = match min_level(levels, lo + 1, hi) {
                        None => {
                            let mid = lo + (hi - lo) / 2;
                            (Span { lo: mid, hi, level: None }, Span { lo, hi: mid, level: None })
                        },
                        Some(m) => {
                            let c = next_cut(levels, lo + 1, hi, m);
                            proof {
                                lemma_min_level_found(levels@, lo + 1, hi as int);
                            }
                            (Span { lo: c, hi, level: Some(m) }, Span { lo, hi: c, level: None })
                        },
                    };
                    proof {
                        lemma_pushed(below, second, offs@, levels@, max);
                        lemma_pushed(below.push(second), head, offs@, levels@, max);
                        assert(span.pieces(offs@, levels@, max) == head.pieces(
                            offs@,
                            levels@,
                            max,
                        ) + second.pieces(offs@, levels@, max));
                        assert(as_ints(done) + (head.pieces(offs@, levels@, max) + (second.pieces(
                            offs@,
                            levels@,
                            max,
                        ) + spec_pending(below, offs@, levels@, max))) =~= whole);
                    }
                    stack.push(second);
                    stack.push(head);
                }
            },
            Some(m) => {
                let next = next_cut(levels, lo + 1, hi, m);
                if next < hi {
                    let second = Span { lo: next, hi, level: Some(m) };
                    let head = Span { lo, hi: next, level: None };
                    proof {
                        lemma_pushed(below, second, offs@, levels@, max);
                        lemma_pushed(below.push(second), head, offs@, levels@, max);
                        assert(as_ints(done) + (head.pieces(offs@, levels@, max) + (second.pieces(
                            offs@,
                            levels@,
                            max,
                        ) + spec_pending(below, offs@, levels@, max))) =~= whole);
                    }
                    stack.push(second);
                    stack.push(head);
                } else {
                    let only = Span { lo, hi, level: None };
                    proof {
                        lemma_pushed(below, only, offs@, levels@, max);
                    }
                    stack.push(only);
                }
            },
        }
    }
    proof {
        assert(as_ints(out@) + Seq::<int>::empty() =~= as_ints(out@));
    }
    out
}

/// The ends of the pieces of a whole file.
pub fn pieces(offs: &Vec<usize>, levels: &Vec<Option<usize>>, max: usize) -> (r: Vec<usize>)
    requires
        increasing(offs@),
        levels@.len() == offs@.len(),
    ensures
        as_ints(r@) == spec_pieces(offs@, levels@, max),
{
    let n = offs.len() - 1;
    if n > 0 {
        plan_span(offs, levels, Span { lo: 0, hi: n, level: Some(0) }, max)
    } else {
        let r: Vec<usize> = Vec::new();
        assert(as_ints(r@) =~= Seq::<int>::empty());
        r
    }
}

} // verus!
