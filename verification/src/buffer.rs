//! The atlas assembler: an RGBA pixel buffer, the verified copy of one
//! decoded image into its placement rectangle, the composite of all
//! placements, and the placement descriptor.

use vstd::prelude::*;
use vstd::pervasive::VecAdditionalExecFns;
use crate::rect::{Placement, disjoint};

verus! {

/// One descriptor entry: the source path and its placement rectangle.
pub struct Entry {
    pub name: Vec<u8>,
    pub x: usize,
    pub y: usize,
    pub w: usize,
    pub h: usize,
}

/// The atlas descriptor: one entry per placement, in placement order.
pub struct Descriptor {
    pub entries: Vec<Entry>,
}

/// Why assembling failed.
#[derive(Clone, Copy, PartialEq, Eq, Structural, Debug)]
pub enum AssembleError {
    /// A placement leaves the bin, names no source buffer, or disagrees
    /// with its source buffer's dimensions.
    CopyOutOfBounds,
}

/// An RGBA pixel buffer, row-major, four bytes per pixel.
pub struct PixelBuf {
    pub w: usize,
    pub h: usize,
    pub data: Vec<u8>,
}

impl PixelBuf {
    /// The data holds exactly the buffer's pixels.
    pub open spec fn wf(self) -> bool {
        self.data@.len() == 4 * self.w * self.h
    }

    /// Channel `c` of the pixel at `(x, y)`.
    pub open spec fn pixel(self, x: int, y: int, c: int) -> u8 {
        self.data@[4 * (y * self.w + x) + c]
    }

    /// A fully transparent buffer.
    pub fn new_transparent(w: usize, h: usize) -> (r: PixelBuf)
        requires
            w <= 0x4000,
            h <= 0x4000,
        ensures
            r.w == w,
            r.h == h,
            r.wf(),
            forall|j: int| 0 <= j < r.data@.len() ==> r.data@[j] == 0u8,
    {
        proof {
            lemma_area_bound(w as int, h as int);
        }
        let n: usize = 4 * w * h;
        let mut data: Vec<u8> = Vec::new();
        let mut j: usize = 0;
        while j < n
            invariant
                j <= n,
                data@.len() == j,
                forall|k: int| 0 <= k < j ==> data@[k] == 0u8,
            decreases n - j,
        {
            data.push(0);
            j = j + 1;
        }
        PixelBuf { w, h, data }
    }
}

/// A bounded area fits comfortably in the machine word.
proof fn lemma_area_bound(w: int, h: int)
    by (nonlinear_arith)
    requires
        0 <= w <= 0x4000,
        0 <= h <= 0x4000,
    ensures
        0 <= 4 * w * h <= 0x4000_0000,
        0 <= w * h <= 0x1000_0000,
{
}

/// A pixel's byte index lies within its row segment.
proof fn lemma_index_in_row(py: int, px: int, w: int)
    by (nonlinear_arith)
    requires
        0 <= px < w,
        0 <= py,
    ensures
        py * w <= py * w + px < (py + 1) * w,
{
}

/// The same area, grouped either way.
proof fn lemma_area_assoc(w: int, h: int)
    by (nonlinear_arith)
    ensures
        4 * w * h == 4 * (h * w),
        4 * w * h == 4 * (w * h),
{
}

/// Row segments of distinct rows do not meet.
proof fn lemma_rows_ordered(a: int, b: int, w: int)
    by (nonlinear_arith)
    requires
        a < b,
        0 <= w,
    ensures
        (a + 1) * w <= b * w,
{
}

/// Copy `src` into `dst` with its top-left corner at `(x, y)`.
/// Every channel of every pixel in the target rectangle afterwards equals
/// the corresponding source channel; every pixel outside it is unchanged.
pub fn blit(dst: &mut PixelBuf, src: &PixelBuf, x: usize, y: usize)
    requires
        old(dst).wf(),
        src.wf(),
        old(dst).w <= 0x4000,
        old(dst).h <= 0x4000,
        1 <= src.w,
        1 <= src.h,
        x + src.w <= old(dst).w,
        y + src.h <= old(dst).h,
    ensures
        final(dst).w == old(dst).w,
        final(dst).h == old(dst).h,
        final(dst).wf(),
        forall|dx: int, dy: int, c: int|
            0 <= dx < src.w && 0 <= dy < src.h && 0 <= c < 4
                ==> final(dst).pixel(x + dx, y + dy, c) == #[trigger] src.pixel(dx, dy, c),
        forall|px: int, py: int, c: int|
            0 <= px < old(dst).w && 0 <= py < old(dst).h && 0 <= c < 4
                && !(x <= px < x + src.w && y <= py < y + src.h)
                ==> #[trigger] final(dst).pixel(px, py, c) == old(dst).pixel(px, py, c),
{
    let w = dst.w;
    proof {
        lemma_area_bound(w as int, dst.h as int);
        lemma_area_bound(src.w as int, src.h as int);
    }
    let mut r: usize = 0;
    while r < src.h
        invariant
            dst.w == old(dst).w,
            dst.h == old(dst).h,
            dst.wf(),
            w == dst.w,
            src.wf(),
            w <= 0x4000,
            dst.h <= 0x4000,
            1 <= src.w <= 0x4000,
            1 <= src.h <= 0x4000,
            x + src.w <= w,
            y + src.h <= dst.h,
            r <= src.h,
            forall|dx: int, dy: int, c: int|
                0 <= dx < src.w && 0 <= dy < r && 0 <= c < 4
                    ==> dst.pixel(x + dx, y + dy, c) == #[trigger] src.pixel(dx, dy, c),
            forall|px: int, py: int, c: int|
                0 <= px < w && 0 <= py < dst.h && 0 <= c < 4
                    && !(x <= px < x + src.w && y <= py < y + r)
                    ==> #[trigger] dst.pixel(px, py, c) == old(dst).pixel(px, py, c),
        decreases src.h - r,
    {
        let ghost pre = *dst;
        proof {
            lemma_index_in_row((y + r) as int, x as int, w as int);
            lemma_rows_ordered((y + r) as int, dst.h as int, w as int);
            assert((y + r + 1) * w <= dst.h * w) by (nonlinear_arith)
                requires y + r + 1 <= dst.h, w >= 0;
            assert(dst.h * w == w * dst.h) by (nonlinear_arith);
            assert((r + 1) * src.w <= src.h * src.w) by (nonlinear_arith)
                requires r + 1 <= src.h, src.w >= 0;
            assert(src.h * src.w == src.w * src.h) by (nonlinear_arith);
            lemma_index_in_row(r as int, 0, src.w as int);
            assert(0 <= r * src.w) by (nonlinear_arith) requires r >= 0, src.w >= 0;
            lemma_area_assoc(w as int, dst.h as int);
            lemma_area_assoc(src.w as int, src.h as int);
            lemma_area_bound(src.w as int, src.h as int);
            lemma_area_bound(w as int, dst.h as int);
            assert((y + r + 1) * w == (y + r) * w + w) by (nonlinear_arith);
            assert((r + 1) * src.w == r * src.w + src.w) by (nonlinear_arith);
        }
        let base_d: usize = 4 * ((y + r) * w + x);
        let base_s: usize = 4 * (r * src.w);
        let mut t: usize = 0;
        while t < 4 * src.w
            invariant
                dst.w == pre.w,
                dst.h == pre.h,
                w == dst.w,
                dst.data@.len() == pre.data@.len(),
                dst.wf(),
                src.wf(),
                t <= 4 * src.w,
                1 <= src.w <= 0x4000,
                src.data@.len() <= 0x4000_0000,
                dst.data@.len() <= 0x4000_0000,
                base_d == 4 * ((y + r) * w + x),
                base_s == 4 * (r * src.w),
                base_d + 4 * src.w <= dst.data@.len(),
                base_s + 4 * src.w <= src.data@.len(),
                forall|j: int| base_d <= j < base_d + t
                    ==> #[trigger] dst.data@[j] == src.data@[base_s + (j - base_d)],
                forall|j: int| 0 <= j < dst.data@.len() && !(base_d <= j < base_d + t)
                    ==> #[trigger] dst.data@[j] == pre.data@[j],
            decreases 4 * src.w - t,
        {
            let v = src.data[base_s + t];
            dst.data.set(base_d + t, v);
            t = t + 1;
        }
        proof {
            assert forall|dx: int, dy: int, c: int|
                0 <= dx < src.w && 0 <= dy < r + 1 && 0 <= c < 4
                implies dst.pixel(x + dx, y + dy, c) == #[trigger] src.pixel(dx, dy, c) by {
                if dy == r {
                    lemma_row_pixels(pre, *dst, *src, x as int, y as int, r as int, w as int,
                        dx, c);
                } else {
                    lemma_pixel_untouched(pre, *dst, src.w as int, x as int, (y + r) as int,
                        x + dx, y + dy, c);
                }
            }
            assert forall|px: int, py: int, c: int|
                0 <= px < w && 0 <= py < dst.h && 0 <= c < 4
                    && !(x <= px < x + src.w && y <= py < y + r + 1)
                implies #[trigger] dst.pixel(px, py, c) == old(dst).pixel(px, py, c) by {
                lemma_pixel_untouched(pre, *dst, src.w as int, x as int, (y + r) as int,
                    px, py, c);
            }
        }
        r = r + 1;
    }
}

/// After one inner pass, the finished row reads back as source pixels.
proof fn lemma_row_pixels(
    pre: PixelBuf,
    cur: PixelBuf,
    src: PixelBuf,
    x: int,
    y: int,
    r: int,
    w: int,
    dx: int,
    c: int,
)
    requires
        w == cur.w,
        cur.wf(),
        src.wf(),
        0 <= x,
        0 <= y,
        0 <= r < src.h,
        0 <= dx < src.w,
        0 <= c < 4,
        x + src.w <= w,
        forall|j: int| 4 * ((y + r) * w + x) <= j < 4 * ((y + r) * w + x) + 4 * src.w
            ==> #[trigger] cur.data@[j] == src.data@[4 * (r * src.w) + (j - 4 * ((y + r) * w + x))],
    ensures
        cur.pixel(x + dx, y + r, c) == src.pixel(dx, r, c),
{
    let base_d = 4 * ((y + r) * w + x);
    let j = 4 * ((y + r) * w + (x + dx)) + c;
    assert(j == base_d + (4 * dx + c));
    assert(4 * (r * src.w + dx) + c == 4 * (r * src.w) + (4 * dx + c));
    assert(base_d <= j < base_d + 4 * src.w);
    assert(cur.data@[j] == src.data@[4 * (r * src.w) + (j - base_d)]);
}

/// A pixel outside the row segment just written keeps its bytes.
proof fn lemma_pixel_untouched(
    pre: PixelBuf,
    cur: PixelBuf,
    src_w: int,
    x: int,
    yrow: int,
    px: int,
    py: int,
    c: int,
)
    requires
        cur.w == pre.w,
        cur.h == pre.h,
        cur.wf(),
        pre.wf(),
        0 <= x,
        0 <= yrow < cur.h,
        x + src_w <= cur.w,
        0 <= src_w,
        0 <= px < cur.w,
        0 <= py < cur.h,
        0 <= c < 4,
        !(x <= px < x + src_w && py == yrow),
        forall|j: int| 0 <= j < cur.data@.len()
            && !(4 * (yrow * cur.w + x) <= j < 4 * (yrow * cur.w + x) + 4 * src_w)
            ==> #[trigger] cur.data@[j] == pre.data@[j],
    ensures
        cur.pixel(px, py, c) == pre.pixel(px, py, c),
{
    let w = cur.w as int;
    let j = 4 * (py * w + px) + c;
    lemma_index_in_row(py, px, w);
    lemma_rows_ordered(py, cur.h as int, w);
    lemma_area_assoc(w, cur.h as int);
    assert(0 <= py * w) by (nonlinear_arith) requires 0 <= py, 0 <= w;
    assert(0 <= j < cur.data@.len());
    if x < w {
        lemma_index_in_row(yrow, x, w);
    }
    if py == yrow {
        assert(px < x || px >= x + src_w);
        assert(!(4 * (yrow * w + x) <= j < 4 * (yrow * w + x) + 4 * src_w));
    } else if py < yrow {
        lemma_rows_ordered(py, yrow, w);
        assert(!(4 * (yrow * w + x) <= j < 4 * (yrow * w + x) + 4 * src_w));
    } else {
        lemma_rows_ordered(yrow, py, w);
        assert((yrow + 1) * w == yrow * w + w) by (nonlinear_arith);
        assert(x + src_w <= w);
        assert(!(4 * (yrow * w + x) <= j < 4 * (yrow * w + x) + 4 * src_w));
    }
    assert(cur.data@[j] == pre.data@[j]);
}

/// A placement that can be copied: its id names a buffer whose dimensions
/// are the placed ones, and its rectangle lies inside the bin.
pub open spec fn placement_ok(p: Placement, bufs: Seq<PixelBuf>, bin_w: int, bin_h: int) -> bool {
    &&& p.id < bufs.len()
    &&& bufs[p.id as int].w == p.w
    &&& bufs[p.id as int].h == p.h
    &&& bufs[p.id as int].wf()
    &&& p.x + p.w <= bin_w
    &&& p.y + p.h <= bin_h
}

/// Some placement's rectangle holds the point.
pub open spec fn covered(ps: Seq<Placement>, px: int, py: int) -> bool {
    exists|k: int| 0 <= k < ps.len()
        && (#[trigger] ps[k]).x <= px < ps[k].x + ps[k].w
        && ps[k].y <= py < ps[k].y + ps[k].h
}

/// The source channel a placement's pixel is copied from.
pub open spec fn src_pixel(
    ps: Seq<Placement>,
    bufs: Seq<PixelBuf>,
    m: int,
    dx: int,
    dy: int,
    c: int,
) -> u8 {
    bufs[ps[m].id as int].pixel(dx, dy, c)
}

/// Composite the source buffers into one transparent bin-sized buffer at
/// the placements' positions. Regions are disjoint, so copy order cannot
/// matter: afterwards every placement's rectangle holds its source's
/// pixels and everything else is fully transparent. Fails if a placement
/// leaves the bin or disagrees with its source buffer.
pub fn compose(
    bin_w: usize,
    bin_h: usize,
    placements: &Vec<Placement>,
    buffers: &Vec<PixelBuf>,
) -> (r: Result<PixelBuf, AssembleError>)
    requires
        bin_w <= 0x4000,
        bin_h <= 0x4000,
        forall|k1: int, k2: int| 0 <= k1 < k2 < placements@.len()
            ==> disjoint(placements@[k1].region(), placements@[k2].region()),
    ensures
        match r {
            Result::Ok(buf) => {
                &&& buf.w == bin_w
                &&& buf.h == bin_h
                &&& buf.wf()
                &&& forall|m: int| 0 <= m < placements@.len()
                        ==> placement_ok(#[trigger] placements@[m], buffers@,
                            bin_w as int, bin_h as int)
                &&& forall|m: int, dx: int, dy: int, c: int|
                        0 <= m < placements@.len() && 0 <= dx < placements@[m].w
                            && 0 <= dy < placements@[m].h && 0 <= c < 4
                        ==> buf.pixel(placements@[m].x + dx, placements@[m].y + dy, c)
                            == #[trigger] src_pixel(placements@, buffers@, m, dx, dy, c)
                &&& forall|px: int, py: int, c: int|
                        0 <= px < bin_w && 0 <= py < bin_h && 0 <= c < 4
                            && !covered(placements@, px, py)
                        ==> #[trigger] buf.pixel(px, py, c) == 0u8
            },
            Result::Err(e) => {
                &&& e is CopyOutOfBounds
                &&& exists|m: int| 0 <= m < placements@.len()
                        && !placement_ok(#[trigger] placements@[m], buffers@,
                            bin_w as int, bin_h as int)
            },
        },
{
    let mut buf = PixelBuf::new_transparent(bin_w, bin_h);
    proof {
        lemma_area_bound(bin_w as int, bin_h as int);
        assert forall|px: int, py: int, c: int|
            0 <= px < bin_w && 0 <= py < bin_h && 0 <= c < 4
            implies #[trigger] buf.pixel(px, py, c) == 0u8 by {
            lemma_index_in_row(py, px, bin_w as int);
            lemma_rows_ordered(py, bin_h as int, bin_w as int);
            lemma_area_assoc(bin_w as int, bin_h as int);
            assert(0 <= py * bin_w) by (nonlinear_arith) requires py >= 0, bin_w >= 0;
        }
    }
    let mut k: usize = 0;
    while k < placements.len()
        invariant
            bin_w <= 0x4000,
            bin_h <= 0x4000,
            k <= placements@.len(),
            buf.w == bin_w,
            buf.h == bin_h,
            buf.wf(),
            forall|k1: int, k2: int| 0 <= k1 < k2 < placements@.len()
                ==> disjoint(placements@[k1].region(), placements@[k2].region()),
            forall|m: int| 0 <= m < k
                ==> placement_ok(#[trigger] placements@[m], buffers@,
                    bin_w as int, bin_h as int),
            forall|m: int, dx: int, dy: int, c: int|
                0 <= m < k && 0 <= dx < placements@[m].w
                    && 0 <= dy < placements@[m].h && 0 <= c < 4
                ==> buf.pixel(placements@[m].x + dx, placements@[m].y + dy, c)
                    == #[trigger] src_pixel(placements@, buffers@, m, dx, dy, c),
            forall|px: int, py: int, c: int|
                0 <= px < bin_w && 0 <= py < bin_h && 0 <= c < 4
                    && !covered(placements@.take(k as int), px, py)
                ==> #[trigger] buf.pixel(px, py, c) == 0u8,
        decreases placements@.len() - k,
    {
        let p = placements[k];
        if p.id >= buffers.len() {
            proof {
                assert(!placement_ok(placements@[k as int], buffers@, bin_w as int,
                    bin_h as int));
            }
            return Result::Err(AssembleError::CopyOutOfBounds);
        }
        let bw = buffers[p.id].w;
        let bh = buffers[p.id].h;
        let mut ok = bw == p.w && bh == p.h && p.w <= bin_w && p.x <= bin_w - p.w
            && p.h <= bin_h && p.y <= bin_h - p.h;
        if ok {
            proof {
                lemma_area_bound(bw as int, bh as int);
            }
            ok = buffers[p.id].data.len() == 4 * bw * bh;
        }
        if !ok {
            proof {
                assert(!placement_ok(placements@[k as int], buffers@, bin_w as int,
                    bin_h as int));
            }
            return Result::Err(AssembleError::CopyOutOfBounds);
        }
        proof {
            assert(placement_ok(placements@[k as int], buffers@, bin_w as int, bin_h as int));
        }
        let ghost pre = buf;
        if p.w >= 1 && p.h >= 1 {
            blit(&mut buf, &buffers[p.id], p.x, p.y);
        }
        proof {
            lemma_compose_step(pre, buf, placements@, buffers@, k as int,
                bin_w as int, bin_h as int);
        }
        k = k + 1;
    }
    proof {
        assert(placements@.take(placements@.len() as int) =~= placements@);
    }
    Result::Ok(buf)
}

/// One copy preserves the loop's picture: earlier regions and the still
/// uncovered area are untouched, the new region now shows its source.
proof fn lemma_compose_step(
    pre: PixelBuf,
    cur: PixelBuf,
    ps: Seq<Placement>,
    bufs: Seq<PixelBuf>,
    k: int,
    bin_w: int,
    bin_h: int,
)
    requires
        0 <= k < ps.len(),
        pre.w == bin_w,
        pre.h == bin_h,
        cur.w == bin_w,
        cur.h == bin_h,
        cur.wf(),
        placement_ok(ps[k], bufs, bin_w, bin_h),
        forall|m: int| 0 <= m < k
            ==> placement_ok(#[trigger] ps[m], bufs, bin_w, bin_h),
        forall|k1: int, k2: int| 0 <= k1 < k2 < ps.len()
            ==> disjoint(ps[k1].region(), ps[k2].region()),
        forall|m: int, dx: int, dy: int, c: int|
            0 <= m < k && 0 <= dx < ps[m].w && 0 <= dy < ps[m].h && 0 <= c < 4
            ==> pre.pixel(ps[m].x + dx, ps[m].y + dy, c)
                == #[trigger] src_pixel(ps, bufs, m, dx, dy, c),
        forall|px: int, py: int, c: int|
            0 <= px < bin_w && 0 <= py < bin_h && 0 <= c < 4
                && !covered(ps.take(k), px, py)
            ==> #[trigger] pre.pixel(px, py, c) == 0u8,
        ps[k].w == 0 || ps[k].h == 0 ==> cur == pre,
        ps[k].w >= 1 && ps[k].h >= 1 ==> {
            &&& forall|dx: int, dy: int, c: int|
                0 <= dx < ps[k].w && 0 <= dy < ps[k].h && 0 <= c < 4
                    ==> cur.pixel(ps[k].x + dx, ps[k].y + dy, c)
                        == #[trigger] bufs[ps[k].id as int].pixel(dx, dy, c)
            &&& forall|px: int, py: int, c: int|
                0 <= px < bin_w && 0 <= py < bin_h && 0 <= c < 4
                    && !(ps[k].x <= px < ps[k].x + ps[k].w
                        && ps[k].y <= py < ps[k].y + ps[k].h)
                    ==> #[trigger] cur.pixel(px, py, c) == pre.pixel(px, py, c)
        },
    ensures
        forall|m: int, dx: int, dy: int, c: int|
            0 <= m < k + 1 && 0 <= dx < ps[m].w && 0 <= dy < ps[m].h && 0 <= c < 4
            ==> cur.pixel(ps[m].x + dx, ps[m].y + dy, c)
                == #[trigger] src_pixel(ps, bufs, m, dx, dy, c),
        forall|px: int, py: int, c: int|
            0 <= px < bin_w && 0 <= py < bin_h && 0 <= c < 4
                && !covered(ps.take(k + 1), px, py)
            ==> #[trigger] cur.pixel(px, py, c) == 0u8,
{
    let pk = ps[k];
    assert forall|m: int, dx: int, dy: int, c: int|
        0 <= m < k + 1 && 0 <= dx < ps[m].w && 0 <= dy < ps[m].h && 0 <= c < 4
        implies cur.pixel(ps[m].x + dx, ps[m].y + dy, c)
            == #[trigger] src_pixel(ps, bufs, m, dx, dy, c) by {
        if m == k {
            assert(pk.w >= 1 && pk.h >= 1);
        } else {
            assert(disjoint(ps[m].region(), pk.region()));
            if pk.w >= 1 && pk.h >= 1 {
                assert(!(pk.x <= ps[m].x + dx < pk.x + pk.w
                    && pk.y <= ps[m].y + dy < pk.y + pk.h));
            }
        }
    }
    assert forall|px: int, py: int, c: int|
        0 <= px < bin_w && 0 <= py < bin_h && 0 <= c < 4
            && !covered(ps.take(k + 1), px, py)
        implies #[trigger] cur.pixel(px, py, c) == 0u8 by {
        assert(!covered(ps.take(k), px, py)) by {
            if covered(ps.take(k), px, py) {
                let m = choose|m: int| 0 <= m < ps.take(k).len()
                    && (#[trigger] ps.take(k)[m]).x <= px < ps.take(k)[m].x + ps.take(k)[m].w
                    && ps.take(k)[m].y <= py < ps.take(k)[m].y + ps.take(k)[m].h;
                assert(ps.take(k + 1)[m] == ps[m]);
                assert(covered(ps.take(k + 1), px, py));
            }
        }
        assert(ps.take(k + 1)[k] == pk);
        assert(!(pk.x <= px < pk.x + pk.w && pk.y <= py < pk.y + pk.h));
        if pk.w >= 1 && pk.h >= 1 {
            assert(cur.pixel(px, py, c) == pre.pixel(px, py, c));
        }
    }
}

/// Build the descriptor: one entry per placement, in placement order,
/// the name resolved from the placement's id.
pub fn build_descriptor(placements: &Vec<Placement>, names: &Vec<Vec<u8>>) -> (r: Result<
    Descriptor,
    AssembleError,
>)
    ensures
        match r {
            Result::Ok(d) => {
                &&& d.entries@.len() == placements@.len()
                &&& forall|k: int| 0 <= k < placements@.len()
                        ==> (#[trigger] d.entries@[k]).name@
                            == names@[placements@[k].id as int]@
                &&& forall|k: int| 0 <= k < placements@.len()
                        ==> (#[trigger] placements@[k]).id < names@.len()
                            && d.entries@[k].x == placements@[k].x
                            && d.entries@[k].y == placements@[k].y
                            && d.entries@[k].w == placements@[k].w
                            && d.entries@[k].h == placements@[k].h
            },
            Result::Err(e) => {
                &&& e is CopyOutOfBounds
                &&& exists|k: int| 0 <= k < placements@.len()
                        && (#[trigger] placements@[k]).id >= names@.len()
            },
        },
{
    let mut entries: Vec<Entry> = Vec::new();
    let mut k: usize = 0;
    while k < placements.len()
        invariant
            k <= placements@.len(),
            entries@.len() == k,
            forall|m: int| 0 <= m < k
                ==> (#[trigger] entries@[m]).name@ == names@[placements@[m].id as int]@,
            forall|m: int| 0 <= m < k
                ==> (#[trigger] placements@[m]).id < names@.len()
                    && entries@[m].x == placements@[m].x
                    && entries@[m].y == placements@[m].y
                    && entries@[m].w == placements@[m].w
                    && entries@[m].h == placements@[m].h,
        decreases placements@.len() - k,
    {
        let p = placements[k];
        if p.id >= names.len() {
            proof {
                assert(placements@[k as int].id >= names@.len());
            }
            return Result::Err(AssembleError::CopyOutOfBounds);
        }
        let name = crate::paths::copy_bytes(&names[p.id]);
        entries.push(Entry { name, x: p.x, y: p.y, w: p.w, h: p.h });
        k = k + 1;
    }
    Result::Ok(Descriptor { entries })
}

} // verus!
