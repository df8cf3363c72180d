//! The packing engine: assigns each rectangle a position inside the
//! smallest power-of-two square bin that holds them all, up to a caller
//! given maximum side, by guillotine (free-rectangle) packing.
//!
//! The whole algorithm has a functional model in spec functions
//! (`spec_pack` and its helpers); `pack` returns exactly that model's
//! value, so the result is a function of the input alone.

use vstd::prelude::*;
use vstd::arithmetic::power::{pow, lemma_pow1, lemma_pow_adds, lemma_pow_increases,
    lemma_pow_strictly_increases};
use vstd::arithmetic::power2::{is_pow2, is_pow2_equiv};
use crate::rect::{Rect, Placement, Region, disjoint, contains, in_bin, dims_match,
    lemma_contained_disjoint};

verus! {

/// Why a pack failed.
#[derive(Clone, Copy, PartialEq, Eq, Structural, Debug)]
pub enum PackError {
    /// Some rectangle has a zero width or height.
    InvalidRectangle,
    /// No power-of-two bin up to the maximum side holds every rectangle.
    DoesNotFit,
}

/// A free (still unoccupied) area of the bin.
#[derive(Clone, Copy, PartialEq, Eq, Structural, Debug)]
pub struct FreeRect {
    pub x: usize,
    pub y: usize,
    pub w: usize,
    pub h: usize,
}

impl FreeRect {
    pub open spec fn region(self) -> Region {
        Region { x: self.x as int, y: self.y as int, w: self.w as int, h: self.h as int }
    }
}

// ---------------------------------------------------------------------------
// Sorting: decreasing height, ties by decreasing width, then by increasing id.
// Rectangles are paired with their input position so placements can be
// returned in submission order.
// ---------------------------------------------------------------------------

/// `a` must come strictly before `b` in packing order.
pub open spec fn key_precedes(a: Rect, b: Rect) -> bool {
    ||| a.h > b.h
    ||| (a.h == b.h && a.w > b.w)
    ||| (a.h == b.h && a.w == b.w && a.id < b.id)
}

/// Stable insertion of `x` into `s`: before the first element it strictly
/// precedes, after everything with an equal key.
pub open spec fn spec_insert(s: Seq<(Rect, usize)>, x: (Rect, usize)) -> Seq<(Rect, usize)>
    decreases s.len(),
{
    if s.len() == 0 {
        seq![x]
    } else if key_precedes(x.0, s[0].0) {
        seq![x] + s
    } else {
        seq![s[0]] + spec_insert(s.drop_first(), x)
    }
}

/// Stable insertion sort over the paired rectangles.
pub open spec fn spec_sort(s: Seq<(Rect, usize)>) -> Seq<(Rect, usize)>
    decreases s.len(),
{
    if s.len() == 0 {
        Seq::<(Rect, usize)>::empty()
    } else {
        spec_insert(spec_sort(s.drop_last()), s.last())
    }
}

/// Each rectangle paired with its input position.
pub open spec fn spec_pairs(rects: Seq<Rect>) -> Seq<(Rect, usize)> {
    Seq::new(rects.len(), |i: int| (rects[i], i as usize))
}

// ---------------------------------------------------------------------------
// One placement step: best-area-fit free rectangle, guillotine split.
// ---------------------------------------------------------------------------

/// A `w × h` footprint fits inside the free rectangle.
pub open spec fn fits(w: int, h: int, f: FreeRect) -> bool {
    w <= f.w && h <= f.h
}

/// The rectangle can be placed in `f` in some allowed orientation.
pub open spec fn can_host(r: Rect, f: FreeRect) -> bool {
    fits(r.w as int, r.h as int, f) || (r.rotatable && fits(r.h as int, r.w as int, f))
}

/// Area of `f` left over after placing `r` there.
pub open spec fn leftover(r: Rect, f: FreeRect) -> int {
    f.w * f.h - r.w * r.h
}

/// `f` is a strictly better host for `r` than `g`: smaller leftover area,
/// ties broken by the smaller top-left `(y, x)` coordinate.
pub open spec fn better(r: Rect, f: FreeRect, g: FreeRect) -> bool {
    ||| leftover(r, f) < leftover(r, g)
    ||| (leftover(r, f) == leftover(r, g) && f.y < g.y)
    ||| (leftover(r, f) == leftover(r, g) && f.y == g.y && f.x < g.x)
}

/// Scan of the free list from position `i` with current best `cur`,
/// yielding the index of the best host for `r`, if any.
pub open spec fn best_from(r: Rect, free: Seq<FreeRect>, i: int, cur: Option<int>) -> Option<int>
    decreases free.len() - i,
{
    if i < 0 || i >= free.len() {
        cur
    } else {
        let take = can_host(r, free[i]) && (match cur {
            Option::None => true,
            Option::Some(c) => better(r, free[i], free[c]),
        });
        let cur2 = if take { Option::Some(i) } else { cur };
        best_from(r, free, i + 1, cur2)
    }
}

/// The index of the best host for `r` in the free list, if any fits.
pub open spec fn best_free(r: Rect, free: Seq<FreeRect>) -> Option<int> {
    best_from(r, free, 0, Option::None)
}

/// Placed width: the rectangle's own, unless only the rotated orientation
/// fits (rotation is applied only when it is the only way to place).
pub open spec fn placed_w(r: Rect, f: FreeRect) -> int {
    if fits(r.w as int, r.h as int, f) {
        r.w as int
    } else {
        r.h as int
    }
}

pub open spec fn placed_h(r: Rect, f: FreeRect) -> int {
    if fits(r.w as int, r.h as int, f) {
        r.h as int
    } else {
        r.w as int
    }
}

/// Guillotine split of `f` after placing a `pw × ph` footprint at its
/// top-left corner: a full-height piece to the right, a piece of the
/// placed width below; zero-area pieces are discarded.
pub open spec fn spec_split(f: FreeRect, pw: int, ph: int) -> Seq<FreeRect> {
    let right = FreeRect {
        x: (f.x + pw) as usize,
        y: f.y,
        w: (f.w - pw) as usize,
        h: f.h,
    };
    let below = FreeRect {
        x: f.x,
        y: (f.y + ph) as usize,
        w: pw as usize,
        h: (f.h - ph) as usize,
    };
    let s0 = Seq::<FreeRect>::empty();
    let s1 = if f.w - pw > 0 { s0.push(right) } else { s0 };
    if f.h - ph > 0 { s1.push(below) } else { s1 }
}

/// Place one rectangle: pick the best free rectangle, anchor the placement
/// at its top-left corner, and split the remainder.
pub open spec fn spec_place_one(r: Rect, free: Seq<FreeRect>) -> Option<(Placement, Seq<FreeRect>)> {
    match best_free(r, free) {
        Option::None => Option::None,
        Option::Some(j) => {
            let f = free[j];
            let pw = placed_w(r, f);
            let ph = placed_h(r, f);
            let p = Placement { id: r.id, x: f.x, y: f.y, w: pw as usize, h: ph as usize };
            Option::Some((p, free.remove(j) + spec_split(f, pw, ph)))
        }
    }
}

/// Place every rectangle from position `i` on, in order; `acc` holds the
/// placements already made, aligned with the pairs before `i`.
pub open spec fn spec_place_all(
    pairs: Seq<(Rect, usize)>,
    i: int,
    free: Seq<FreeRect>,
    acc: Seq<Placement>,
) -> Option<Seq<Placement>>
    decreases pairs.len() - i,
{
    if i < 0 || i >= pairs.len() {
        Option::Some(acc)
    } else {
        match spec_place_one(pairs[i].0, free) {
            Option::None => Option::None,
            Option::Some(step) => spec_place_all(pairs, i + 1, step.1, acc.push(step.0)),
        }
    }
}

/// The initial free list: the whole bin.
pub open spec fn spec_init_free(side: usize) -> Seq<FreeRect> {
    seq![FreeRect { x: 0, y: 0, w: side, h: side }]
}

/// Whether (and how) the sorted rectangles all place into a `side × side`
/// bin; the placements come out aligned with the sorted order.
pub open spec fn spec_try_pack(pairs: Seq<(Rect, usize)>, side: usize) -> Option<Seq<Placement>> {
    spec_place_all(pairs, 0, spec_init_free(side), Seq::<Placement>::empty())
}

// ---------------------------------------------------------------------------
// Candidate bin sizes: successive powers of two.
// ---------------------------------------------------------------------------

/// Try `side`, doubling on failure while the doubled side still respects
/// the maximum.
pub open spec fn spec_find_size(
    pairs: Seq<(Rect, usize)>,
    side: usize,
    max: usize,
) -> Option<(usize, Seq<Placement>)>
    decreases max - side,
{
    match spec_try_pack(pairs, side) {
        Option::Some(ps) => Option::Some((side, ps)),
        Option::None => {
            if 1 <= side && side * 2 <= max {
                spec_find_size(pairs, (side * 2) as usize, max)
            } else {
                Option::None
            }
        }
    }
}

/// The largest single dimension among the rectangles, and at least 1, so
/// that an empty input still gets a (degenerate) 1 × 1 bin.
pub open spec fn spec_need(rects: Seq<Rect>) -> int
    decreases rects.len(),
{
    if rects.len() == 0 {
        1
    } else {
        let rest = spec_need(rects.drop_last());
        let m = if rects.last().w >= rects.last().h { rects.last().w as int } else { rects.last().h as int };
        if m >= rest { m } else { rest }
    }
}

/// The smallest power of two that is at least `need`, starting the doubling
/// from `cur`.
pub open spec fn spec_start(need: int, cur: int) -> int
    decreases 2 * need - cur,
{
    if cur >= need || cur < 1 {
        cur
    } else {
        spec_start(need, 2 * cur)
    }
}

/// Some rectangle has a zero width or height.
pub open spec fn has_zero_dim(rects: Seq<Rect>) -> bool {
    exists|k: int| 0 <= k < rects.len() && (rects[k].w == 0 || rects[k].h == 0)
}

/// Scatter the placements (aligned with the sorted pairs) back to the
/// rectangles' input positions.
pub open spec fn spec_scatter(
    pairs: Seq<(Rect, usize)>,
    placed: Seq<Placement>,
    i: int,
    acc: Seq<Option<Placement>>,
) -> Seq<Option<Placement>>
    decreases pairs.len() - i,
{
    if i < 0 || i >= pairs.len() {
        acc
    } else {
        spec_scatter(pairs, placed, i + 1, acc.update(pairs[i].1 as int, Option::Some(placed[i])))
    }
}

/// The functional model of `pack`: validate, sort, find the smallest
/// power-of-two bin, and return the placements in submission order.
pub open spec fn spec_pack(rects: Seq<Rect>, max: usize) -> Result<(usize, Seq<Placement>), PackError> {
    if has_zero_dim(rects) {
        Result::Err(PackError::InvalidRectangle)
    } else if spec_need(rects) > max {
        Result::Err(PackError::DoesNotFit)
    } else {
        let pairs = spec_sort(spec_pairs(rects));
        match spec_find_size(pairs, spec_start(spec_need(rects), 1) as usize, max) {
            Option::None => Result::Err(PackError::DoesNotFit),
            Option::Some(found) => {
                let opts = spec_scatter(pairs, found.1, 0,
                    Seq::new(rects.len(), |j: int| Option::<Placement>::None));
                Result::Ok((found.0, Seq::new(rects.len(), |j: int| match opts[j] {
                    Option::Some(p) => p,
                    Option::None => Placement { id: 0, x: 0, y: 0, w: 0, h: 0 },
                })))
            }
        }
    }
}

// ---------------------------------------------------------------------------
// Exec sort, mirrored by spec_sort.
// ---------------------------------------------------------------------------

/// `spec_insert` places the new element at the first position whose element
/// it strictly precedes.
proof fn lemma_spec_insert_at(s: Seq<(Rect, usize)>, x: (Rect, usize), k: int)
    requires
        0 <= k <= s.len(),
        forall|j: int| 0 <= j < k ==> !key_precedes(x.0, s[j].0),
        k < s.len() ==> key_precedes(x.0, s[k].0),
    ensures
        spec_insert(s, x) == s.insert(k, x),
    decreases s.len(),
{
    if s.len() == 0 {
        assert(spec_insert(s, x) =~= s.insert(0, x));
    } else if k == 0 {
        assert(spec_insert(s, x) =~= s.insert(0, x));
    } else {
        assert(!key_precedes(x.0, s[0].0));
        lemma_spec_insert_at(s.drop_first(), x, k - 1);
        assert(seq![s[0]] + s.drop_first().insert(k - 1, x) =~= s.insert(k, x));
    }
}

/// What `spec_insert` holds: the old elements and the new one.
proof fn lemma_insert_elems(s: Seq<(Rect, usize)>, x: (Rect, usize))
    ensures
        spec_insert(s, x).len() == s.len() + 1,
        forall|e: (Rect, usize)|
            #![trigger spec_insert(s, x).contains(e)]
            #![trigger s.contains(e)]
            spec_insert(s, x).contains(e) <==> (e == x || s.contains(e)),
    decreases s.len(),
{
    if s.len() == 0 {
        assert forall|e: (Rect, usize)| spec_insert(s, x).contains(e) implies (e == x || s.contains(e)) by {
            let j = choose|j: int| 0 <= j < spec_insert(s, x).len() && spec_insert(s, x)[j] == e;
            assert(j == 0);
        }
        assert(spec_insert(s, x)[0] == x);
    } else if key_precedes(x.0, s[0].0) {
        let r = seq![x] + s;
        assert forall|e: (Rect, usize)| r.contains(e) implies (e == x || s.contains(e)) by {
            let j = choose|j: int| 0 <= j < r.len() && r[j] == e;
            if j > 0 {
                assert(s[j - 1] == e);
            }
        }
        assert forall|e: (Rect, usize)| e == x || s.contains(e) implies r.contains(e) by {
            if e == x {
                assert(r[0] == e);
            } else {
                let j = choose|j: int| 0 <= j < s.len() && s[j] == e;
                assert(r[j + 1] == e);
            }
        }
    } else {
        lemma_insert_elems(s.drop_first(), x);
        let rec = spec_insert(s.drop_first(), x);
        let r = seq![s[0]] + rec;
        assert(spec_insert(s, x) == r);
        assert forall|e: (Rect, usize)| r.contains(e) implies (e == x || s.contains(e)) by {
            let j = choose|j: int| 0 <= j < r.len() && r[j] == e;
            if j == 0 {
                assert(s[0] == e);
            } else {
                assert(rec[j - 1] == e);
                assert(rec.contains(e));
                if e != x {
                    let m = choose|m: int| 0 <= m < s.drop_first().len() && s.drop_first()[m] == e;
                    assert(s.drop_first()[m] == s[m + 1]);
                    assert(s[m + 1] == e);
                }
            }
        }
        assert forall|e: (Rect, usize)| e == x || s.contains(e) implies r.contains(e) by {
            if e == x {
                assert(rec.contains(e));
                let m = choose|m: int| 0 <= m < rec.len() && rec[m] == e;
                assert(r[m + 1] == e);
            } else {
                let j = choose|j: int| 0 <= j < s.len() && s[j] == e;
                if j == 0 {
                    assert(r[0] == e);
                } else {
                    assert(s.drop_first()[j - 1] == e);
                    assert(s.drop_first().contains(e));
                    assert(rec.contains(e));
                    let m = choose|m: int| 0 <= m < rec.len() && rec[m] == e;
                    assert(r[m + 1] == e);
                }
            }
        }
    }
}

/// Pairwise-distinct input positions among the pairs.
pub open spec fn distinct_idx(s: Seq<(Rect, usize)>) -> bool {
    forall|j1: int, j2: int| 0 <= j1 < j2 < s.len() ==> s[j1].1 != s[j2].1
}

/// Insertion keeps the input positions pairwise distinct.
proof fn lemma_insert_distinct(s: Seq<(Rect, usize)>, x: (Rect, usize))
    requires
        distinct_idx(s),
        forall|j: int| 0 <= j < s.len() ==> s[j].1 != x.1,
    ensures
        distinct_idx(spec_insert(s, x)),
    decreases s.len(),
{
    if s.len() == 0 {
    } else if key_precedes(x.0, s[0].0) {
        let r = seq![x] + s;
        assert forall|j1: int, j2: int| 0 <= j1 < j2 < r.len() implies r[j1].1 != r[j2].1 by {
            if j1 > 0 {
                assert(r[j1] == s[j1 - 1] && r[j2] == s[j2 - 1]);
            } else {
                assert(r[j2] == s[j2 - 1]);
            }
        }
    } else {
        assert forall|j: int| 0 <= j < s.drop_first().len() implies s.drop_first()[j].1 != x.1 by {
            assert(s.drop_first()[j] == s[j + 1]);
        }
        assert(distinct_idx(s.drop_first())) by {
            assert forall|j1: int, j2: int| 0 <= j1 < j2 < s.drop_first().len()
                implies s.drop_first()[j1].1 != s.drop_first()[j2].1 by {
                assert(s.drop_first()[j1] == s[j1 + 1] && s.drop_first()[j2] == s[j2 + 1]);
            }
        }
        lemma_insert_distinct(s.drop_first(), x);
        lemma_insert_elems(s.drop_first(), x);
        let rec = spec_insert(s.drop_first(), x);
        let r = seq![s[0]] + rec;
        assert(spec_insert(s, x) == r);
        assert forall|j1: int, j2: int| 0 <= j1 < j2 < r.len() implies r[j1].1 != r[j2].1 by {
            if j1 == 0 {
                assert(rec[j2 - 1] == r[j2]);
                assert(rec.contains(rec[j2 - 1]));
                if r[j2] == x {
                } else {
                    assert(s.drop_first().contains(r[j2]));
                    let m = choose|m: int| 0 <= m < s.drop_first().len() && s.drop_first()[m] == r[j2];
                    assert(s[m + 1] == r[j2]);
                }
            } else {
                assert(rec[j1 - 1] == r[j1] && rec[j2 - 1] == r[j2]);
            }
        }
    }
}

/// The sorted pairs: same length, same elements, positions still distinct.
proof fn lemma_sort_props(s: Seq<(Rect, usize)>)
    requires
        distinct_idx(s),
    ensures
        spec_sort(s).len() == s.len(),
        forall|e: (Rect, usize)|
            #![trigger spec_sort(s).contains(e)]
            #![trigger s.contains(e)]
            spec_sort(s).contains(e) <==> s.contains(e),
        distinct_idx(spec_sort(s)),
    decreases s.len(),
{
    if s.len() == 0 {
    } else {
        let pre = s.drop_last();
        assert(distinct_idx(pre)) by {
            assert forall|j1: int, j2: int| 0 <= j1 < j2 < pre.len() implies pre[j1].1 != pre[j2].1 by {
                assert(pre[j1] == s[j1] && pre[j2] == s[j2]);
            }
        }
        lemma_sort_props(pre);
        lemma_insert_elems(spec_sort(pre), s.last());
        assert forall|j: int| 0 <= j < spec_sort(pre).len() implies spec_sort(pre)[j].1 != s.last().1 by {
            assert(spec_sort(pre).contains(spec_sort(pre)[j]));
            assert(pre.contains(spec_sort(pre)[j]));
            let m = choose|m: int| 0 <= m < pre.len() && pre[m] == spec_sort(pre)[j];
            assert(s[m] == spec_sort(pre)[j]);
        }
        lemma_insert_distinct(spec_sort(pre), s.last());
        assert forall|e: (Rect, usize)| spec_sort(s).contains(e) implies s.contains(e) by {
            if e != s.last() {
                assert(spec_sort(pre).contains(e));
                assert(pre.contains(e));
                let m = choose|m: int| 0 <= m < pre.len() && pre[m] == e;
                assert(s[m] == e);
            } else {
                assert(s[s.len() - 1] == e);
            }
        }
        assert forall|e: (Rect, usize)| s.contains(e) implies spec_sort(s).contains(e) by {
            let j = choose|j: int| 0 <= j < s.len() && s[j] == e;
            if j < s.len() - 1 {
                assert(pre[j] == e);
                assert(pre.contains(e));
            } else {
                assert(e == s.last());
            }
        }
    }
}

/// Whether `a` must precede `b` in packing order.
fn rect_precedes(a: &Rect, b: &Rect) -> (r: bool)
    ensures
        r == key_precedes(*a, *b),
{
    a.h > b.h || (a.h == b.h && a.w > b.w) || (a.h == b.h && a.w == b.w && a.id < b.id)
}

/// Insert one pair into an already built prefix, keeping `spec_insert`'s
/// order.
fn insert_pair(out: &mut Vec<(Rect, usize)>, x: (Rect, usize))
    ensures
        final(out)@ == spec_insert(old(out)@, x),
{
    let mut k: usize = 0;
    while k < out.len()
        invariant
            out@ == old(out)@,
            k <= out@.len(),
            forall|j: int| 0 <= j < k ==> !key_precedes(x.0, out@[j].0),
        decreases out@.len() - k,
    {
        if rect_precedes(&x.0, &out[k].0) {
            proof {
                lemma_spec_insert_at(out@, x, k as int);
            }
            out.insert(k, x);
            return;
        }
        k = k + 1;
    }
    proof {
        lemma_spec_insert_at(out@, x, out@.len() as int);
    }
    out.insert(k, x);
}

/// Pair each rectangle with its input position and sort the pairs.
fn sort_rects(rects: &Vec<Rect>) -> (out: Vec<(Rect, usize)>)
    ensures
        out@ == spec_sort(spec_pairs(rects@)),
{
    let mut out: Vec<(Rect, usize)> = Vec::new();
    let mut i: usize = 0;
    while i < rects.len()
        invariant
            i <= rects@.len(),
            out@ == spec_sort(spec_pairs(rects@.take(i as int))),
        decreases rects@.len() - i,
    {
        proof {
            assert(spec_pairs(rects@.take(i as int + 1)).drop_last() =~= spec_pairs(rects@.take(i as int)));
            assert(spec_pairs(rects@.take(i as int + 1)).last() == (rects@[i as int], i as usize));
        }
        insert_pair(&mut out, (rects[i], i));
        i = i + 1;
    }
    proof {
        assert(rects@.take(rects@.len() as int) =~= rects@);
    }
    out
}

// ---------------------------------------------------------------------------
// Exec placement, mirrored by spec_place_all.
// ---------------------------------------------------------------------------

/// Lift an index option to the spec model's integer index.
pub open spec fn opt_int(o: Option<usize>) -> Option<int> {
    match o {
        Option::None => Option::None,
        Option::Some(j) => Option::Some(j as int),
    }
}

/// Bound on a product of two bounded non-negative factors.
proof fn lemma_mul_bound(a: int, b: int, c: int)
    by (nonlinear_arith)
    requires
        0 <= a <= c,
        0 <= b <= c,
    ensures
        a * b <= c * c,
{
}

/// A host's area is at least the hosted rectangle's.
proof fn lemma_host_area(r: Rect, f: FreeRect)
    requires
        can_host(r, f),
    ensures
        r.w * r.h <= f.w * f.h,
{
    if fits(r.w as int, r.h as int, f) {
        assert(r.w * r.h <= f.w * f.h) by (nonlinear_arith)
            requires r.w <= f.w, r.h <= f.h;
    } else {
        assert(r.w * r.h <= f.w * f.h) by (nonlinear_arith)
            requires r.h <= f.w, r.w <= f.h;
    }
}

/// The scan result is always an index of a free rectangle that can host.
proof fn lemma_best_from_props(r: Rect, free: Seq<FreeRect>, i: int, cur: Option<int>)
    requires
        match cur {
            Option::None => true,
            Option::Some(c) => 0 <= c < free.len() && can_host(r, free[c]),
        },
    ensures
        match best_from(r, free, i, cur) {
            Option::None => true,
            Option::Some(j) => 0 <= j < free.len() && can_host(r, free[j]),
        },
    decreases free.len() - i,
{
    if 0 <= i < free.len() {
        let take = can_host(r, free[i]) && (match cur {
            Option::None => true,
            Option::Some(c) => better(r, free[i], free[c]),
        });
        let cur2 = if take { Option::Some(i) } else { cur };
        lemma_best_from_props(r, free, i + 1, cur2);
    }
}

/// Pick the best-area-fit free rectangle for `r`, ties broken by the
/// smaller top-left coordinate, scanning in order.
fn find_best(r: &Rect, free: &Vec<FreeRect>) -> (res: Option<usize>)
    requires
        forall|k: int| 0 <= k < free@.len()
            ==> (#[trigger] free@[k]).w <= 0x4000_0000 && free@[k].h <= 0x4000_0000,
    ensures
        best_free(*r, free@) == opt_int(res),
        match res {
            Option::None => true,
            Option::Some(j) => j < free@.len() && can_host(*r, free@[j as int]),
        },
{
    let mut best: Option<usize> = Option::None;
    let mut k: usize = 0;
    while k < free.len()
        invariant
            k <= free@.len(),
            forall|m: int| 0 <= m < free@.len()
                ==> (#[trigger] free@[m]).w <= 0x4000_0000 && free@[m].h <= 0x4000_0000,
            best_free(*r, free@) == best_from(*r, free@, k as int, opt_int(best)),
            match best {
                Option::None => true,
                Option::Some(b) => b < free@.len() && can_host(*r, free@[b as int]),
            },
        decreases free@.len() - k,
    {
        let f = free[k];
        let hosts = (r.w <= f.w && r.h <= f.h) || (r.rotatable && r.h <= f.w && r.w <= f.h);
        proof {
            assert(hosts == can_host(*r, free@[k as int]));
        }
        let take: bool = if !hosts {
            false
        } else {
            match best {
                Option::None => true,
                Option::Some(b) => {
                    let g = free[b];
                    proof {
                        assert(f == free@[k as int] && g == free@[b as int]);
                        assert(f.w <= 0x4000_0000 && f.h <= 0x4000_0000);
                        assert(g.w <= 0x4000_0000 && g.h <= 0x4000_0000);
                        assert(r.w <= 0x4000_0000 && r.h <= 0x4000_0000) by {
                            if !fits(r.w as int, r.h as int, f) {
                                assert(fits(r.h as int, r.w as int, f));
                            }
                        }
                        lemma_host_area(*r, f);
                        lemma_host_area(*r, g);
                        lemma_mul_bound(r.w as int, r.h as int, 0x4000_0000);
                        lemma_mul_bound(f.w as int, f.h as int, 0x4000_0000);
                        lemma_mul_bound(g.w as int, g.h as int, 0x4000_0000);
                    }
                    let ra = (r.w as u64) * (r.h as u64);
                    let fl = (f.w as u64) * (f.h as u64) - ra;
                    let gl = (g.w as u64) * (g.h as u64) - ra;
                    let b2 = fl < gl || (fl == gl && (f.y < g.y || (f.y == g.y && f.x < g.x)));
                    proof {
                        assert(b2 == better(*r, f, g));
                    }
                    b2
                }
            }
        };
        proof {
            let cur = opt_int(best);
            let take_s = can_host(*r, free@[k as int]) && (match cur {
                Option::None => true,
                Option::Some(c) => better(*r, free@[k as int], free@[c]),
            });
            assert(take == take_s);
            let cur2 = if take_s { Option::Some(k as int) } else { cur };
            assert(best_from(*r, free@, k as int, cur) == best_from(*r, free@, k as int + 1, cur2));
        }
        if take {
            best = Option::Some(k);
        }
        k = k + 1;
    }
    best
}

/// Every free rectangle lies in the bin.
pub open spec fn free_in_bin(free: Seq<FreeRect>, side: int) -> bool {
    forall|k: int| 0 <= k < free.len() ==> in_bin((#[trigger] free[k]).region(), side)
}

/// Place every rectangle, in order, into a `side × side` bin. Returns the
/// placements aligned with `pairs` (the sorted order), or `None` if some
/// rectangle finds no host at this size.
fn place_all(pairs: &Vec<(Rect, usize)>, side: usize) -> (res: Option<Vec<Placement>>)
    requires
        1 <= side <= 0x4000_0000,
    ensures
        spec_try_pack(pairs@, side) == (match res {
            Option::None => Option::<Seq<Placement>>::None,
            Option::Some(v) => Option::Some(v@),
        }),
        match res {
            Option::None => true,
            Option::Some(v) => {
                &&& v@.len() == pairs@.len()
                &&& forall|k: int| 0 <= k < v@.len() ==> dims_match(pairs@[k].0, #[trigger] v@[k])
                &&& forall|k: int| 0 <= k < v@.len() ==> in_bin((#[trigger] v@[k]).region(), side as int)
                &&& forall|k1: int, k2: int| 0 <= k1 < k2 < v@.len()
                        ==> disjoint(v@[k1].region(), v@[k2].region())
            },
        },
{
    let mut free: Vec<FreeRect> = Vec::new();
    free.push(FreeRect { x: 0, y: 0, w: side, h: side });
    let mut placed: Vec<Placement> = Vec::new();
    proof {
        assert(free@ =~= spec_init_free(side));
    }
    let mut i: usize = 0;
    while i < pairs.len()
        invariant
            1 <= side <= 0x4000_0000,
            i <= pairs@.len(),
            placed@.len() == i,
            spec_try_pack(pairs@, side) == spec_place_all(pairs@, i as int, free@, placed@),
            free_in_bin(free@, side as int),
            forall|k1: int, k2: int| 0 <= k1 < k2 < free@.len()
                ==> disjoint(free@[k1].region(), free@[k2].region()),
            forall|k1: int, k2: int| 0 <= k1 < free@.len() && 0 <= k2 < placed@.len()
                ==> disjoint(free@[k1].region(), placed@[k2].region()),
            forall|k1: int, k2: int| 0 <= k1 < k2 < placed@.len()
                ==> disjoint(placed@[k1].region(), placed@[k2].region()),
            forall|k: int| 0 <= k < placed@.len()
                ==> in_bin((#[trigger] placed@[k]).region(), side as int),
            forall|k: int| 0 <= k < placed@.len()
                ==> dims_match(pairs@[k].0, #[trigger] placed@[k]),
        decreases pairs@.len() - i,
    {
        let r = pairs[i].0;
        match find_best(&r, &free) {
            Option::None => {
                proof {
                    assert(spec_place_one(r, free@) is None);
                    assert(spec_place_all(pairs@, i as int, free@, placed@) is None);
                }
                return Option::None;
            }
            Option::Some(j) => {
                let ghost old_free = free@;
                let ghost old_placed = placed@;
                let f = free[j];
                let normal = r.w <= f.w && r.h <= f.h;
                let pw: usize = if normal { r.w } else { r.h };
                let ph: usize = if normal { r.h } else { r.w };
                proof {
                    assert(can_host(r, old_free[j as int]));
                    if !normal {
                        assert(fits(r.h as int, r.w as int, f));
                    }
                    assert(pw <= f.w && ph <= f.h);
                    assert(in_bin(f.region(), side as int));
                    assert(placed_w(r, f) == pw as int && placed_h(r, f) == ph as int);
                }
                let p = Placement { id: r.id, x: f.x, y: f.y, w: pw, h: ph };
                free.remove(j);
                if f.w - pw > 0 {
                    free.push(FreeRect { x: f.x + pw, y: f.y, w: f.w - pw, h: f.h });
                }
                if f.h - ph > 0 {
                    free.push(FreeRect { x: f.x, y: f.y + ph, w: pw, h: f.h - ph });
                }
                placed.push(p);
                proof {
                    assert(step_placement(r, f) == p);
                    assert(free@ =~= old_free.remove(j as int)
                        + spec_split(f, pw as int, ph as int));
                    lemma_place_step(pairs@, i as int, old_free, old_placed, j as int,
                        free@, placed@, side as int);
                }
                i = i + 1;
            }
        }
    }
    proof {
        assert(spec_place_all(pairs@, i as int, free@, placed@) == Option::Some(placed@));
    }
    Option::Some(placed)
}

/// One placement step preserves the loop's geometric facts and advances the
/// spec model by exactly one unfolding.
proof fn lemma_place_step(
    pairs: Seq<(Rect, usize)>,
    i: int,
    old_free: Seq<FreeRect>,
    old_placed: Seq<Placement>,
    j: int,
    new_free: Seq<FreeRect>,
    new_placed: Seq<Placement>,
    side: int,
)
    requires
        0 <= side <= 0x4000_0000,
        0 <= i < pairs.len(),
        old_placed.len() == i,
        best_free(pairs[i].0, old_free) == Option::Some(j),
        0 <= j < old_free.len(),
        can_host(pairs[i].0, old_free[j]),
        free_in_bin(old_free, side),
        forall|k1: int, k2: int| 0 <= k1 < k2 < old_free.len()
            ==> disjoint(old_free[k1].region(), old_free[k2].region()),
        forall|k1: int, k2: int| 0 <= k1 < old_free.len() && 0 <= k2 < old_placed.len()
            ==> disjoint(old_free[k1].region(), old_placed[k2].region()),
        forall|k1: int, k2: int| 0 <= k1 < k2 < old_placed.len()
            ==> disjoint(old_placed[k1].region(), old_placed[k2].region()),
        forall|k: int| 0 <= k < old_placed.len()
            ==> in_bin((#[trigger] old_placed[k]).region(), side),
        forall|k: int| 0 <= k < old_placed.len()
            ==> dims_match(pairs[k].0, #[trigger] old_placed[k]),
        new_placed == old_placed.push(step_placement(pairs[i].0, old_free[j])),
        new_free == old_free.remove(j)
            + spec_split(old_free[j], placed_w(pairs[i].0, old_free[j]),
                placed_h(pairs[i].0, old_free[j])),
    ensures
        spec_place_all(pairs, i, old_free, old_placed)
            == spec_place_all(pairs, i + 1, new_free, new_placed),
        new_placed.len() == i + 1,
        free_in_bin(new_free, side),
        forall|k1: int, k2: int| 0 <= k1 < k2 < new_free.len()
            ==> disjoint(new_free[k1].region(), new_free[k2].region()),
        forall|k1: int, k2: int| 0 <= k1 < new_free.len() && 0 <= k2 < new_placed.len()
            ==> disjoint(new_free[k1].region(), new_placed[k2].region()),
        forall|k1: int, k2: int| 0 <= k1 < k2 < new_placed.len()
            ==> disjoint(new_placed[k1].region(), new_placed[k2].region()),
        forall|k: int| 0 <= k < new_placed.len()
            ==> in_bin((#[trigger] new_placed[k]).region(), side),
        forall|k: int| 0 <= k < new_placed.len()
            ==> dims_match(pairs[k].0, #[trigger] new_placed[k]),
{
    let r = pairs[i].0;
    let f = old_free[j];
    let pw = placed_w(r, f);
    let ph = placed_h(r, f);
    let p = step_placement(r, f);
    let split = spec_split(f, pw, ph);
    let rem = old_free.remove(j);
    old_free.remove_ensures(j);

    // The model steps to exactly this state.
    assert(spec_place_one(r, old_free) == Option::Some((p, new_free)));
    assert(spec_place_all(pairs, i, old_free, old_placed)
        == spec_place_all(pairs, i + 1, new_free, new_placed));

    // Orientation facts: the placed footprint fits inside f.
    assert(pw <= f.w && ph <= f.h) by {
        if !fits(r.w as int, r.h as int, f) {
            assert(fits(r.h as int, r.w as int, f));
        }
    }
    assert(contains(f.region(), p.region()));
    assert(dims_match(r, p)) by {
        if !fits(r.w as int, r.h as int, f) {
            assert(r.rotatable);
        }
    }

    // Every split piece sits inside f, beside or below the placement.
    assert(in_bin(f.region(), side));
    assert(f.x + pw <= side && f.y + ph <= side);
    let right = FreeRect { x: (f.x + pw) as usize, y: f.y, w: (f.w - pw) as usize, h: f.h };
    let below = FreeRect { x: f.x, y: (f.y + ph) as usize, w: pw as usize, h: (f.h - ph) as usize };
    assert(right.region() == Region { x: f.x + pw, y: f.y as int, w: f.w - pw, h: f.h as int });
    assert(below.region() == Region { x: f.x as int, y: f.y + ph, w: pw, h: f.h - ph });
    assert(contains(f.region(), right.region()));
    assert(contains(f.region(), below.region()));
    assert(disjoint(right.region(), p.region()));
    assert(disjoint(below.region(), p.region()));
    assert(disjoint(right.region(), below.region()));
    assert(split.len() <= 2);
    assert forall|k: int| 0 <= k < split.len()
        implies contains(f.region(), (#[trigger] split[k]).region())
            && disjoint(split[k].region(), p.region()) by {
        assert(split[k] == right || split[k] == below);
    }
    assert forall|k1: int, k2: int| 0 <= k1 < k2 < split.len()
        implies disjoint(split[k1].region(), split[k2].region()) by {
        assert(split[k1] == right && split[k2] == below);
    }

    // Old free rectangles other than f survive; they avoid f and everything
    // placed, so they avoid the new placement and the split pieces too.
    assert forall|k1: int, k2: int| 0 <= k1 < k2 < new_free.len()
        implies disjoint(new_free[k1].region(), new_free[k2].region()) by {
        lemma_new_free_source(old_free, j, split, new_free, k1);
        lemma_new_free_source(old_free, j, split, new_free, k2);
        if k1 < rem.len() && k2 < rem.len() {
            let m1 = if k1 < j { k1 } else { k1 + 1 };
            let m2 = if k2 < j { k2 } else { k2 + 1 };
            assert(disjoint(old_free[m1].region(), old_free[m2].region()));
        } else if k1 < rem.len() {
            let m1 = if k1 < j { k1 } else { k1 + 1 };
            assert(disjoint(old_free[if m1 < j { m1 } else { j }].region(),
                old_free[if m1 < j { j } else { m1 }].region()));
            assert(disjoint(f.region(), new_free[k1].region()));
            lemma_contained_disjoint(f.region(), new_free[k2].region(), new_free[k1].region());
        } else {
            assert(new_free[k1] == right && new_free[k2] == below);
        }
    }
    assert forall|k1: int, k2: int| 0 <= k1 < new_free.len() && 0 <= k2 < new_placed.len()
        implies disjoint(new_free[k1].region(), new_placed[k2].region()) by {
        lemma_new_free_source(old_free, j, split, new_free, k1);
        if k1 < rem.len() {
            let m1 = if k1 < j { k1 } else { k1 + 1 };
            if k2 < old_placed.len() {
                assert(disjoint(old_free[m1].region(), old_placed[k2].region()));
            } else {
                assert(new_placed[k2] == p);
                assert(disjoint(old_free[if m1 < j { m1 } else { j }].region(),
                    old_free[if m1 < j { j } else { m1 }].region()));
                lemma_contained_disjoint(f.region(), p.region(), new_free[k1].region());
            }
        } else {
            if k2 < old_placed.len() {
                assert(disjoint(f.region(), old_placed[k2].region()));
                lemma_contained_disjoint(f.region(), new_free[k1].region(),
                    old_placed[k2].region());
            } else {
                assert(new_placed[k2] == p);
                assert(new_free[k1] == right || new_free[k1] == below);
            }
        }
    }
    assert forall|k1: int, k2: int| 0 <= k1 < k2 < new_placed.len()
        implies disjoint(new_placed[k1].region(), new_placed[k2].region()) by {
        if k2 == old_placed.len() {
            assert(disjoint(f.region(), old_placed[k1].region()));
            lemma_contained_disjoint(f.region(), p.region(), old_placed[k1].region());
        }
    }
    assert forall|k: int| 0 <= k < new_free.len()
        implies in_bin((#[trigger] new_free[k]).region(), side) by {
        lemma_new_free_source(old_free, j, split, new_free, k);
        if k >= rem.len() {
            assert(new_free[k] == right || new_free[k] == below);
        }
    }
}

/// The placement the spec model makes for `r` hosted by `f`.
pub open spec fn step_placement(r: Rect, f: FreeRect) -> Placement {
    Placement {
        id: r.id,
        x: f.x,
        y: f.y,
        w: placed_w(r, f) as usize,
        h: placed_h(r, f) as usize,
    }
}

/// Each rectangle of the new free list is an old one (not the host) or a
/// split piece of the host.
proof fn lemma_new_free_source(
    old_free: Seq<FreeRect>,
    j: int,
    split: Seq<FreeRect>,
    new_free: Seq<FreeRect>,
    k: int,
)
    requires
        0 <= j < old_free.len(),
        new_free == old_free.remove(j) + split,
        0 <= k < new_free.len(),
    ensures
        k < j ==> new_free[k] == old_free[k],
        j <= k < old_free.len() - 1 ==> new_free[k] == old_free[k + 1],
        k >= old_free.len() - 1 ==> new_free[k] == split[k - (old_free.len() - 1)],
{
    old_free.remove_ensures(j);
}

// ---------------------------------------------------------------------------
// Candidate sizes and the public entry point.
// ---------------------------------------------------------------------------

/// Two powers of two at least a factor two apart.
proof fn lemma_pow2_gap(a: int, b: int)
    requires
        is_pow2(a),
        is_pow2(b),
        a < b,
    ensures
        2 * a <= b,
{
    broadcast use is_pow2_equiv;
    let i = choose|i: nat| pow(2, i) == a;
    let j = choose|j: nat| pow(2, j) == b;
    if j <= i {
        if j < i {
            lemma_pow_strictly_increases(2, j, i);
        }
        assert(false);
    }
    lemma_pow1(2);
    lemma_pow_adds(2, i, 1);
    lemma_pow_increases(2, i + 1, j);
}

/// `spec_start` yields the smallest power of two at least `need`.
proof fn lemma_start_props(need: int, cur: int)
    requires
        1 <= cur,
        cur < 2 * need,
        is_pow2(cur),
    ensures
        cur <= spec_start(need, cur),
        need <= spec_start(need, cur) || spec_start(need, cur) == cur,
        need >= cur ==> need <= spec_start(need, cur),
        spec_start(need, cur) < 2 * need || spec_start(need, cur) == cur,
        is_pow2(spec_start(need, cur)),
    decreases 2 * need - cur,
{
    if cur >= need {
    } else {
        assert(is_pow2(2 * cur)) by {
            broadcast use is_pow2_equiv;
            let i = choose|i: nat| pow(2, i) == cur;
            lemma_pow1(2);
            lemma_pow_adds(2, i, 1);
            assert(pow(2, i + 1) == 2 * cur);
        }
        lemma_start_props(need, 2 * cur);
    }
}

/// A rectangle wider or taller than every free rectangle never places, so
/// the whole attempt fails.
proof fn lemma_no_fit_small(
    pairs: Seq<(Rect, usize)>,
    i: int,
    free: Seq<FreeRect>,
    acc: Seq<Placement>,
    side: int,
)
    requires
        0 <= i,
        forall|k: int| 0 <= k < free.len()
            ==> (#[trigger] free[k]).w <= side && free[k].h <= side,
        exists|k: int| i <= k < pairs.len()
            && ((#[trigger] pairs[k]).0.w > side || pairs[k].0.h > side),
    ensures
        spec_place_all(pairs, i, free, acc) is None,
    decreases pairs.len() - i,
{
    let kw = choose|k: int| i <= k < pairs.len()
        && ((#[trigger] pairs[k]).0.w > side || pairs[k].0.h > side);
    let r = pairs[i].0;
    match spec_place_one(r, free) {
        Option::None => {}
        Option::Some(step) => {
            lemma_best_from_props(r, free, 0, Option::None);
            let bj = best_free(r, free);
            assert(bj is Some);
            let j = match bj {
                Option::Some(j) => j,
                Option::None => 0,
            };
            assert(0 <= j < free.len() && can_host(r, free[j]));
            let f = free[j];
            assert(f.w <= side && f.h <= side);
            if kw == i {
                assert(false);
            } else {
                let pw = placed_w(r, f);
                let ph = placed_h(r, f);
                assert(0 <= pw <= f.w && 0 <= ph <= f.h) by {
                    if !fits(r.w as int, r.h as int, f) {
                        assert(fits(r.h as int, r.w as int, f));
                    }
                }
                let split = spec_split(f, pw, ph);
                let new_free = free.remove(j) + split;
                assert(step.1 == new_free);
                free.remove_ensures(j);
                let right = FreeRect {
                    x: (f.x + pw) as usize, y: f.y, w: (f.w - pw) as usize, h: f.h };
                let below = FreeRect {
                    x: f.x, y: (f.y + ph) as usize, w: pw as usize, h: (f.h - ph) as usize };
                assert forall|k: int| 0 <= k < new_free.len()
                    implies (#[trigger] new_free[k]).w <= side && new_free[k].h <= side by {
                    lemma_new_free_source(free, j, split, new_free, k);
                    if k >= free.len() - 1 {
                        assert(new_free[k] == right || new_free[k] == below);
                    }
                }
                assert(i + 1 <= kw < pairs.len()
                    && (pairs[kw].0.w > side || pairs[kw].0.h > side));
                lemma_no_fit_small(pairs, i + 1, new_free, acc.push(step.0), side);
            }
        }
    }
}

/// A power of two is positive.
proof fn lemma_pow2_positive(n: int)
    requires
        is_pow2(n),
    ensures
        n >= 1,
{
    reveal(is_pow2);
}

/// Doubling preserves being a power of two.
proof fn lemma_pow2_double(n: int)
    requires
        is_pow2(n),
    ensures
        is_pow2(2 * n),
{
    reveal(is_pow2);
}

/// A `need` above `v` comes from some rectangle dimension above `v`.
proof fn lemma_need_witness(rects: Seq<Rect>, v: int)
    requires
        spec_need(rects) > v,
        v >= 1,
    ensures
        exists|k: int| 0 <= k < rects.len()
            && ((#[trigger] rects[k]).w > v || rects[k].h > v),
    decreases rects.len(),
{
    let last = rects.last();
    let m = if last.w >= last.h { last.w as int } else { last.h as int };
    if m == spec_need(rects) {
        assert(rects[rects.len() - 1].w > v || rects[rects.len() - 1].h > v);
    } else {
        lemma_need_witness(rects.drop_last(), v);
        let k = choose|k: int| 0 <= k < rects.drop_last().len()
            && ((#[trigger] rects.drop_last()[k]).w > v || rects.drop_last()[k].h > v);
        assert(rects[k].w > v || rects[k].h > v);
    }
}

/// Some pair records input position `t`.
pub open spec fn has_position(pairs: Seq<(Rect, usize)>, t: int) -> bool {
    exists|m: int| 0 <= m < pairs.len() && (#[trigger] pairs[m]).1 == t
}

/// The sorted pairs describe the input rectangles exactly: each pair is a
/// faithful (rectangle, input position) record, every input position
/// occurs, and no position repeats.
proof fn lemma_pairs_facts(rects: Seq<Rect>)
    requires
        rects.len() <= usize::MAX,
    ensures
        spec_sort(spec_pairs(rects)).len() == rects.len(),
        forall|m: int| 0 <= m < rects.len()
            ==> 0 <= (#[trigger] spec_sort(spec_pairs(rects))[m]).1 < rects.len()
                && spec_sort(spec_pairs(rects))[m].0
                    == rects[spec_sort(spec_pairs(rects))[m].1 as int],
        forall|t: int| 0 <= t < rects.len()
            ==> #[trigger] has_position(spec_sort(spec_pairs(rects)), t),
        distinct_idx(spec_sort(spec_pairs(rects))),
{
    let base = spec_pairs(rects);
    let sorted = spec_sort(base);
    assert(base.len() == rects.len());
    assert forall|j1: int, j2: int| 0 <= j1 < j2 < base.len()
        implies base[j1].1 != base[j2].1 by {
        assert(base[j1] == (rects[j1], j1 as usize));
        assert(base[j2] == (rects[j2], j2 as usize));
    }
    lemma_sort_props(base);
    assert forall|m: int| 0 <= m < rects.len()
        implies 0 <= (#[trigger] sorted[m]).1 < rects.len()
            && sorted[m].0 == rects[sorted[m].1 as int] by {
        assert(sorted.contains(sorted[m]));
        assert(base.contains(sorted[m]));
        let t = choose|t: int| 0 <= t < base.len() && base[t] == sorted[m];
        assert(sorted[m] == (rects[t], t as usize));
    }
    assert forall|t: int| 0 <= t < rects.len()
        implies #[trigger] has_position(sorted, t) by {
        assert(base[t] == (rects[t], t as usize));
        assert(base.contains(base[t]));
        assert(sorted.contains(base[t]));
        let m = choose|m: int| 0 <= m < sorted.len() && sorted[m] == base[t];
        assert(0 <= m < sorted.len());
        assert(sorted[m].1 == t);
    }
}

/// Transfer the placement facts from sorted order back to submission
/// order, through the scatter table.
proof fn lemma_pack_output(
    rects: Seq<Rect>,
    pairs: Seq<(Rect, usize)>,
    placed: Seq<Placement>,
    opts: Seq<Option<Placement>>,
    result: Seq<Placement>,
    side: int,
)
    requires
        pairs.len() == rects.len(),
        placed.len() == rects.len(),
        opts.len() == rects.len(),
        result.len() == rects.len(),
        forall|m: int| 0 <= m < pairs.len()
            ==> 0 <= (#[trigger] pairs[m]).1 < rects.len()
                && pairs[m].0 == rects[pairs[m].1 as int],
        distinct_idx(pairs),
        forall|k: int| 0 <= k < placed.len() ==> dims_match(pairs[k].0, #[trigger] placed[k]),
        forall|k: int| 0 <= k < placed.len() ==> in_bin((#[trigger] placed[k]).region(), side),
        forall|k1: int, k2: int| 0 <= k1 < k2 < placed.len()
            ==> disjoint(placed[k1].region(), placed[k2].region()),
        forall|t: int| 0 <= t < opts.len() ==> match #[trigger] opts[t] {
            Option::Some(p) => exists|m: int|
                0 <= m < pairs.len() && (#[trigger] pairs[m]).1 == t && placed[m] == p,
            Option::None => false,
        },
        forall|q: int| 0 <= q < result.len()
            ==> Option::Some(#[trigger] result[q]) == opts[q],
    ensures
        forall|k: int| 0 <= k < rects.len() ==> dims_match(rects[k], #[trigger] result[k]),
        forall|k: int| 0 <= k < rects.len() ==> in_bin((#[trigger] result[k]).region(), side),
        forall|k1: int, k2: int| 0 <= k1 < k2 < rects.len()
            ==> disjoint(result[k1].region(), result[k2].region()),
{
    assert forall|k: int| 0 <= k < rects.len()
        implies dims_match(rects[k], #[trigger] result[k])
            && in_bin(result[k].region(), side) by {
        let m = choose|m: int| 0 <= m < pairs.len()
            && (#[trigger] pairs[m]).1 == k && placed[m] == result[k];
        assert(pairs[m].0 == rects[k]);
    }
    assert forall|k1: int, k2: int| 0 <= k1 < k2 < rects.len()
        implies disjoint(result[k1].region(), result[k2].region()) by {
        let m1 = choose|m: int| 0 <= m < pairs.len()
            && (#[trigger] pairs[m]).1 == k1 && placed[m] == result[k1];
        let m2 = choose|m: int| 0 <= m < pairs.len()
            && (#[trigger] pairs[m]).1 == k2 && placed[m] == result[k2];
        assert(m1 != m2);
        if m1 < m2 {
            assert(disjoint(placed[m1].region(), placed[m2].region()));
        } else {
            assert(disjoint(placed[m2].region(), placed[m1].region()));
        }
    }
}

/// The largest single rectangle dimension, and at least 1.
fn max_need(rects: &Vec<Rect>) -> (need: usize)
    ensures
        need as int == spec_need(rects@),
        need >= 1,
{
    let mut need: usize = 1;
    let mut i: usize = 0;
    while i < rects.len()
        invariant
            i <= rects@.len(),
            need >= 1,
            need as int == spec_need(rects@.take(i as int)),
        decreases rects@.len() - i,
    {
        let r = rects[i];
        let m = if r.w >= r.h { r.w } else { r.h };
        proof {
            assert(rects@.take(i as int + 1).drop_last() =~= rects@.take(i as int));
            assert(rects@.take(i as int + 1).last() == rects@[i as int]);
        }
        if m > need {
            need = m;
        }
        i = i + 1;
    }
    proof {
        assert(rects@.take(rects@.len() as int) =~= rects@);
    }
    need
}

/// The smallest power of two at least `need`.
fn pow2_at_least(need: usize) -> (start: usize)
    requires
        1 <= need <= 0x4000_0000,
    ensures
        start as int == spec_start(need as int, 1),
        is_pow2(start as int),
        need <= start,
        start < 2 * need,
{
    let mut s: usize = 1;
    proof {
        reveal(is_pow2);
    }
    while s < need
        invariant
            1 <= s,
            s < 2 * need,
            need <= 0x4000_0000,
            is_pow2(s as int),
            spec_start(need as int, 1) == spec_start(need as int, s as int),
        decreases 2 * need - s,
    {
        proof {
            lemma_pow2_double(s as int);
        }
        s = s * 2;
    }
    s
}

/// One attempt at a fixed candidate bin side, with `pack`'s sort order
/// and placement strategy: what `pack` tries at each size, so a caller
/// can re-attempt a smaller bin and observe the failure.
pub fn try_pack_at(rects: &Vec<Rect>, side: usize) -> (res: Option<Vec<Placement>>)
    requires
        1 <= side <= 0x4000_0000,
    ensures
        match res {
            Option::Some(v) => spec_try_pack(spec_sort(spec_pairs(rects@)), side)
                == Option::Some(v@),
            Option::None => spec_try_pack(spec_sort(spec_pairs(rects@)), side) is None,
        },
{
    let pairs = sort_rects(rects);
    place_all(&pairs, side)
}

/// Whether the placements' regions are pairwise disjoint.
pub fn placements_disjoint(ps: &Vec<Placement>) -> (r: bool)
    ensures
        r == (forall|k1: int, k2: int| 0 <= k1 < k2 < ps@.len()
            ==> disjoint(ps@[k1].region(), ps@[k2].region())),
{
    let mut i: usize = 0;
    while i < ps.len()
        invariant
            i <= ps@.len(),
            forall|k1: int, k2: int| 0 <= k1 < k2 < ps@.len() && k1 < i
                ==> disjoint(ps@[k1].region(), ps@[k2].region()),
        decreases ps@.len() - i,
    {
        let a = ps[i];
        let mut j: usize = i + 1;
        while j < ps.len()
            invariant
                i < j <= ps@.len(),
                i < ps@.len(),
                a == ps@[i as int],
                forall|k2: int| i < k2 < j
                    ==> disjoint(ps@[i as int].region(), ps@[k2].region()),
            decreases ps@.len() - j,
        {
            let b = ps[j];
            let apart = (a.x as u128) + (a.w as u128) <= b.x as u128
                || (b.x as u128) + (b.w as u128) <= a.x as u128
                || (a.y as u128) + (a.h as u128) <= b.y as u128
                || (b.y as u128) + (b.h as u128) <= a.y as u128;
            if !apart {
                proof {
                    assert(!disjoint(ps@[i as int].region(), ps@[j as int].region()));
                }
                return false;
            }
            j = j + 1;
        }
        i = i + 1;
    }
    true
}

/// Pack the rectangles into the smallest power-of-two square bin whose
/// side does not exceed `max_bin_side`.
///
/// On success the bin is square, its side a power of two no larger than
/// the maximum, and the placements — returned in the order the rectangles
/// were submitted — all lie inside the bin and are pairwise disjoint. No
/// strictly smaller power-of-two bin admits a packing (by this placement
/// strategy), and the whole result is a function of the input alone, so
/// packing the same rectangles twice gives identical output.
pub fn pack(rects: &Vec<Rect>, max_bin_side: usize) -> (res: Result<
    (usize, usize, Vec<Placement>),
    PackError,
>)
    requires
        is_pow2(max_bin_side as int),
        max_bin_side <= 0x4000_0000,
    ensures
        match res {
            Result::Ok(t) => {
                &&& t.0 == t.1
                &&& is_pow2(t.0 as int)
                &&& t.0 <= max_bin_side
                &&& t.2@.len() == rects@.len()
                &&& forall|k: int| 0 <= k < rects@.len()
                        ==> dims_match(rects@[k], #[trigger] t.2@[k])
                &&& forall|k: int| 0 <= k < rects@.len()
                        ==> in_bin((#[trigger] t.2@[k]).region(), t.0 as int)
                &&& forall|k1: int, k2: int| 0 <= k1 < k2 < rects@.len()
                        ==> disjoint(t.2@[k1].region(), t.2@[k2].region())
                &&& forall|s: usize| is_pow2(s as int) && s < t.0
                        ==> spec_try_pack(spec_sort(spec_pairs(rects@)), s) is None
                &&& spec_pack(rects@, max_bin_side)
                    == Result::<(usize, Seq<Placement>), PackError>::Ok((t.0, t.2@))
            },
            Result::Err(e) => {
                &&& spec_pack(rects@, max_bin_side)
                    == Result::<(usize, Seq<Placement>), PackError>::Err(e)
                &&& (e is InvalidRectangle <==> has_zero_dim(rects@))
            },
        },
{
    let n = rects.len();

    // Reject zero-dimension rectangles.
    let mut i: usize = 0;
    while i < n
        invariant
            n == rects@.len(),
            i <= n,
            forall|k: int| 0 <= k < i ==> (#[trigger] rects@[k]).w > 0 && rects@[k].h > 0,
        decreases n - i,
    {
        if rects[i].w == 0 || rects[i].h == 0 {
            proof {
                assert(has_zero_dim(rects@));
            }
            return Result::Err(PackError::InvalidRectangle);
        }
        i = i + 1;
    }
    proof {
        assert(!has_zero_dim(rects@));
    }

    // The smallest workable side; fail early if even that overflows the cap.
    let need = max_need(rects);
    if need > max_bin_side {
        return Result::Err(PackError::DoesNotFit);
    }
    let start = pow2_at_least(need);
    proof {
        if start > max_bin_side {
            lemma_pow2_gap(max_bin_side as int, start as int);
            assert(false);
        }
    }

    let pairs = sort_rects(rects);
    proof {
        lemma_pairs_facts(rects@);
    }

    let mut side = start;
    loop
        invariant
            n == rects@.len(),
            pairs@ == spec_sort(spec_pairs(rects@)),
            pairs@.len() == n,
            forall|m: int| 0 <= m < n
                ==> 0 <= (#[trigger] pairs@[m]).1 < n && pairs@[m].0 == rects@[pairs@[m].1 as int],
            forall|t: int| 0 <= t < n ==> #[trigger] has_position(pairs@, t),
            distinct_idx(pairs@),
            !has_zero_dim(rects@),
            is_pow2(max_bin_side as int),
            max_bin_side <= 0x4000_0000,
            need as int == spec_need(rects@),
            1 <= need <= max_bin_side,
            start as int == spec_start(need as int, 1),
            is_pow2(start as int),
            need <= start,
            start < 2 * need,
            is_pow2(side as int),
            start <= side <= max_bin_side,
            spec_find_size(pairs@, start, max_bin_side)
                == spec_find_size(pairs@, side, max_bin_side),
            forall|s: usize| is_pow2(s as int) && start <= s < side
                ==> spec_try_pack(pairs@, s) is None,
        decreases max_bin_side - side,
    {
        proof {
            lemma_pow2_positive(side as int);
        }
        match place_all(&pairs, side) {
            Option::Some(placed) => {
                proof {
                    assert(spec_find_size(pairs@, side, max_bin_side)
                        == Option::Some((side, placed@)));
                }
                // Minimality: every smaller power of two was either tried
                // and failed, or cannot even hold the largest rectangle.
                proof {
                    assert forall|s: usize| is_pow2(s as int) && s < side
                        implies spec_try_pack(pairs@, s) is None by {
                        lemma_pow2_positive(s as int);
                        if s >= start {
                        } else if s >= need {
                            lemma_pow2_gap(s as int, start as int);
                            assert(false);
                        } else {
                            lemma_need_witness(rects@, s as int);
                            let k = choose|k: int| 0 <= k < rects@.len()
                                && ((#[trigger] rects@[k]).w > s as int || rects@[k].h > s as int);
                            assert(has_position(pairs@, k));
                            let m = choose|m: int| 0 <= m < pairs@.len()
                                && (#[trigger] pairs@[m]).1 == k;
                            assert(pairs@[m].0 == rects@[k]);
                            assert(exists|q: int| 0 <= q < pairs@.len()
                                && ((#[trigger] pairs@[q]).0.w > s as int
                                    || pairs@[q].0.h > s as int));
                            assert(forall|q: int| 0 <= q < spec_init_free(s).len()
                                ==> (#[trigger] spec_init_free(s)[q]).w <= s as int
                                    && spec_init_free(s)[q].h <= s as int);
                            lemma_no_fit_small(pairs@, 0, spec_init_free(s),
                                Seq::<Placement>::empty(), s as int);
                        }
                    }
                }

                // Scatter the placements back to submission order.
                let mut outv: Vec<Option<Placement>> = Vec::new();
                let mut j: usize = 0;
                while j < n
                    invariant
                        j <= n,
                        outv@.len() == j,
                        forall|t: int| 0 <= t < j ==> (#[trigger] outv@[t]) is None,
                    decreases n - j,
                {
                    outv.push(Option::None);
                    j = j + 1;
                }
                let ghost init_opts = Seq::new(n as nat, |t: int| Option::<Placement>::None);
                proof {
                    assert(outv@ =~= init_opts);
                }
                let mut k: usize = 0;
                while k < n
                    invariant
                        n == rects@.len(),
                        k <= n,
                        outv@.len() == n,
                        placed@.len() == n,
                        pairs@.len() == n,
                        forall|m: int| 0 <= m < n
                            ==> 0 <= (#[trigger] pairs@[m]).1 < n,
                        distinct_idx(pairs@),
                        spec_scatter(pairs@, placed@, 0, init_opts)
                            == spec_scatter(pairs@, placed@, k as int, outv@),
                        forall|t: int| 0 <= t < n ==> match #[trigger] outv@[t] {
                            Option::Some(p) => exists|m: int|
                                0 <= m < k && (#[trigger] pairs@[m]).1 == t && placed@[m] == p,
                            Option::None => forall|m: int|
                                0 <= m < k ==> (#[trigger] pairs@[m]).1 != t,
                        },
                    decreases n - k,
                {
                    let idx = pairs[k].1;
                    let ghost old_outv = outv@;
                    outv.set(idx, Option::Some(placed[k]));
                    proof {
                        assert(outv@ == old_outv.update(idx as int, Option::Some(placed@[k as int])));
                        assert(spec_scatter(pairs@, placed@, k as int, old_outv)
                            == spec_scatter(pairs@, placed@, k as int + 1, outv@));
                        assert forall|t: int| 0 <= t < n implies match #[trigger] outv@[t] {
                            Option::Some(p) => exists|m: int|
                                0 <= m < k + 1 && (#[trigger] pairs@[m]).1 == t && placed@[m] == p,
                            Option::None => forall|m: int|
                                0 <= m < k + 1 ==> (#[trigger] pairs@[m]).1 != t,
                        } by {
                            if t == idx as int {
                                assert(outv@[t] == Option::Some(placed@[k as int]));
                                assert(0 <= k < k + 1 && pairs@[k as int].1 == t
                                    && placed@[k as int] == placed@[k as int]);
                            } else {
                                assert(outv@[t] == old_outv[t]);
                            }
                        }
                    }
                    k = k + 1;
                }
                let ghost final_opts = outv@;
                proof {
                    assert(spec_scatter(pairs@, placed@, n as int, outv@) == outv@);
                    assert(spec_scatter(pairs@, placed@, 0, init_opts) == final_opts);
                    // Every slot was filled: every input position occurs in the pairs.
                    assert forall|t: int| 0 <= t < n implies (#[trigger] final_opts[t]) is Some by {
                        assert(has_position(pairs@, t));
                        let m = choose|m: int| 0 <= m < pairs@.len()
                            && (#[trigger] pairs@[m]).1 == t;
                        if final_opts[t] is None {
                            assert(pairs@[m].1 != t);
                        }
                    }
                }
                let mut result: Vec<Placement> = Vec::new();
                let mut t: usize = 0;
                while t < n
                    invariant
                        t <= n,
                        outv@ == final_opts,
                        outv@.len() == n,
                        forall|q: int| 0 <= q < n ==> (#[trigger] final_opts[q]) is Some,
                        result@.len() == t,
                        forall|q: int| 0 <= q < t ==> Option::Some(#[trigger] result@[q]) == final_opts[q],
                    decreases n - t,
                {
                    match outv[t] {
                        Option::Some(p) => {
                            result.push(p);
                        }
                        Option::None => {
                            proof {
                                assert(false);
                            }
                            return Result::Err(PackError::DoesNotFit);
                        }
                    }
                    t = t + 1;
                }
                proof {
                    lemma_pack_output(rects@, pairs@, placed@, final_opts, result@,
                        side as int);
                    assert(spec_pack(rects@, max_bin_side)
                        == Result::<(usize, Seq<Placement>), PackError>::Ok((side, result@))) by {
                        assert(spec_find_size(pairs@, start, max_bin_side)
                            == Option::Some((side, placed@)));
                        assert(init_opts
                            =~= Seq::new(rects@.len(), |j: int| Option::<Placement>::None));
                        assert(result@ =~= Seq::new(rects@.len(), |j: int| match final_opts[j] {
                            Option::Some(p) => p,
                            Option::None => Placement { id: 0, x: 0, y: 0, w: 0, h: 0 },
                        }));
                    }
                }
                return Result::Ok((side, side, result));
            }
            Option::None => {
                if side * 2 <= max_bin_side {
                    proof {
                        lemma_pow2_double(side as int);
                        assert(spec_find_size(pairs@, side, max_bin_side)
                            == spec_find_size(pairs@, (side * 2) as usize, max_bin_side));
                        assert forall|s: usize| is_pow2(s as int) && start <= s < side * 2
                            implies spec_try_pack(pairs@, s) is None by {
                            if side < s {
                                lemma_pow2_gap(side as int, s as int);
                                assert(false);
                            }
                        }
                    }
                    side = side * 2;
                } else {
                    proof {
                        assert(spec_find_size(pairs@, side, max_bin_side) is None);
                    }
                    return Result::Err(PackError::DoesNotFit);
                }
            }
        }
    }
}

} // verus!
