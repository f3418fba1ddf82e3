//! From one grayscale frame to its rectangles.
//!
//! A pixel is active when its value reaches the threshold. In each row the
//! active pixels fall into runs: maximal stretches of neighbouring active
//! pixels. A block is a maximal stack of rows that all hold the same run (the
//! same first column and the same length). The rectangles of a frame are its
//! blocks, ordered by their top-left corner, rows first.
//!
//! A run that is shifted or resized from one row to the next starts a new
//! block: blocks are not merged any further.

use crate::rect::PixelRect;
use vstd::prelude::*;

verus! {

/// A frame as the contracts see it: row-major pixels and the threshold.
pub struct FrameModel {
    pub pixels: Seq<u8>,
    pub width: int,
    pub height: int,
    pub threshold: u8,
}

impl FrameModel {
    /// The frame has one byte per pixel, and its sides fit a rectangle's
    /// 16-bit fields.
    pub open spec fn valid(self) -> bool {
        &&& 0 <= self.width <= u16::MAX
        &&& 0 <= self.height <= u16::MAX
        &&& self.pixels.len() == self.width * self.height
    }

    /// The pixel in row `r`, column `c` lies in the frame and reaches the
    /// threshold.
    pub open spec fn active(self, r: int, c: int) -> bool {
        &&& 0 <= r < self.height
        &&& 0 <= c < self.width
        &&& self.pixels[r * self.width + c] >= self.threshold
    }

    /// Row `r` holds a run of `len` pixels that starts in column `x`: they are
    /// all active, and the pixels on either side are not.
    pub open spec fn is_run(self, r: int, x: int, len: int) -> bool {
        &&& len >= 1
        &&& forall|c: int| x <= c < x + len ==> #[trigger] self.active(r, c)
        &&& !self.active(r, x - 1)
        &&& !self.active(r, x + len)
    }

    /// `q` is a block: each of its rows holds the run that starts in column
    /// `q.x` with length `q.w`, and the rows just above and below do not.
    pub open spec fn is_block(self, q: PixelRect) -> bool {
        &&& q.h >= 1
        &&& forall|r: int| q.y <= r < q.y + q.h ==> #[trigger] self.is_run(r, q.x as int, q.w as int)
        &&& !self.is_run(q.y - 1, q.x as int, q.w as int)
        &&& !self.is_run(q.y + q.h, q.x as int, q.w as int)
    }
}

/// The frame held by `pixels`.
pub open spec fn frame_of(pixels: Seq<u8>, width: u32, height: u32, threshold: u8) -> FrameModel {
    FrameModel { pixels, width: width as int, height: height as int, threshold }
}

/// `a`'s top-left corner comes before `b`'s, rows first.
pub open spec fn starts_before(a: PixelRect, b: PixelRect) -> bool {
    a.y < b.y || (a.y == b.y && a.x < b.x)
}

/// `rects` is strictly ordered by top-left corner.
pub open spec fn ordered(rects: Seq<PixelRect>) -> bool {
    forall|i: int, j: int|
        0 <= i < j < rects.len() ==> starts_before(#[trigger] rects[i], #[trigger] rects[j])
}

/// `rects` is the rectangle list of `f`: every entry is a block, every block
/// is an entry, and the entries are strictly ordered by top-left corner.
pub open spec fn is_extraction(f: FrameModel, rects: Seq<PixelRect>) -> bool {
    &&& forall|i: int| 0 <= i < rects.len() ==> f.is_block(#[trigger] rects[i])
    &&& ordered(rects)
    &&& forall|q: PixelRect| #[trigger] f.is_block(q) ==> rects.contains(q)
}

/// `q` covers the pixel in row `r`, column `c`.
pub open spec fn covers(q: PixelRect, r: int, c: int) -> bool {
    q.y <= r < q.y + q.h && q.x <= c < q.x + q.w
}

/// Some rectangle of `rects` covers the pixel in row `r`, column `c`.
pub open spec fn painted(rects: Seq<PixelRect>, r: int, c: int) -> bool {
    exists|i: int| 0 <= i < rects.len() && covers(#[trigger] rects[i], r, c)
}

/// The run is one that a scan has met when it has finished the rows above
/// `lim_r` and, in row `lim_r`, the columns before `lim_c`.
spec fn seen(f: FrameModel, r: int, x: int, len: int, lim_r: int, lim_c: int) -> bool {
    f.is_run(r, x, len) && (r < lim_r || (r == lim_r && x < lim_c))
}

/// `q` is a block of the part of the frame that the scan has met.
spec fn is_partial(f: FrameModel, q: PixelRect, lim_r: int, lim_c: int) -> bool {
    &&& q.h >= 1
    &&& forall|r: int|
        q.y <= r < q.y + q.h ==> #[trigger] seen(f, r, q.x as int, q.w as int, lim_r, lim_c)
    &&& !f.is_run(q.y - 1, q.x as int, q.w as int)
    &&& !seen(f, q.y + q.h, q.x as int, q.w as int, lim_r, lim_c)
}

/// `rects` is the rectangle list of the part of the frame that the scan has
/// met.
spec fn progress(f: FrameModel, rects: Seq<PixelRect>, lim_r: int, lim_c: int) -> bool {
    &&& forall|i: int| 0 <= i < rects.len() ==> is_partial(f, #[trigger] rects[i], lim_r, lim_c)
    &&& ordered(rects)
    &&& forall|q: PixelRect| #[trigger] is_partial(f, q, lim_r, lim_c) ==> rects.contains(q)
}

/// The scratch array names, for each column, the rectangle that a run
/// starting there could extend: one that ends in the row above and whose
/// column the scan has not reached, or one that ends in the current row.
spec fn scratch_names(
    rects: Seq<PixelRect>,
    scratch: Seq<isize>,
    lim_r: int,
    lim_c: int,
) -> bool {
    forall|i: int|
        0 <= i < rects.len() && ((#[trigger] rects[i]).y + rects[i].h == lim_r + 1 || (rects[i].y
            + rects[i].h == lim_r && rects[i].x >= lim_c)) ==> scratch[rects[i].x as int] == i
}

/// The first row of the stack of rows that hold the run and ends in row `r`.
spec fn stack_top(f: FrameModel, r: int, x: int, len: int) -> int
    decreases r,
{
    if r > 0 && f.is_run(r - 1, x, len) {
        stack_top(f, r - 1, x, len)
    } else {
        r
    }
}

/// The row after the stack of rows that hold the run and starts in row `r`.
spec fn stack_bottom(f: FrameModel, r: int, x: int, len: int) -> int
    decreases f.height - r,
{
    if r < f.height && f.is_run(r, x, len) {
        stack_bottom(f, r + 1, x, len)
    } else {
        r
    }
}

/// The first column of the stretch of active pixels that holds column `c`.
spec fn run_start(f: FrameModel, r: int, c: int) -> int
    decreases c,
{
    if c > 0 && f.active(r, c - 1) {
        run_start(f, r, c - 1)
    } else {
        c
    }
}

/// The column after the stretch of active pixels that starts in column `c`.
spec fn run_end(f: FrameModel, r: int, c: int) -> int
    decreases f.width - c,
{
    if c < f.width && f.active(r, c) {
        run_end(f, r, c + 1)
    } else {
        c
    }
}

proof fn lemma_stack_top(f: FrameModel, r: int, x: int, len: int)
    requires
        f.is_run(r, x, len),
    ensures
        0 <= stack_top(f, r, x, len) <= r,
        forall|k: int| stack_top(f, r, x, len) <= k <= r ==> #[trigger] f.is_run(k, x, len),
        !f.is_run(stack_top(f, r, x, len) - 1, x, len),
    decreases r,
{
    assert(f.active(r, x));
    if r > 0 && f.is_run(r - 1, x, len) {
        lemma_stack_top(f, r - 1, x, len);
    } else if r == 0 {
        if f.is_run(-1, x, len) {
            assert(f.active(-1, x));
        }
    }
}

proof fn lemma_stack_bottom(f: FrameModel, r: int, x: int, len: int)
    requires
        0 <= r <= f.height,
    ensures
        r <= stack_bottom(f, r, x, len) <= f.height,
        forall|k: int| r <= k < stack_bottom(f, r, x, len) ==> #[trigger] f.is_run(k, x, len),
        !f.is_run(stack_bottom(f, r, x, len), x, len),
    decreases f.height - r,
{
    if r < f.height && f.is_run(r, x, len) {
        lemma_stack_bottom(f, r + 1, x, len);
    } else if r >= f.height {
        if f.is_run(r, x, len) {
            assert(f.active(r, x));
        }
    }
}

proof fn lemma_run_start(f: FrameModel, r: int, c: int)
    requires
        f.active(r, c),
    ensures
        0 <= run_start(f, r, c) <= c,
        forall|k: int| run_start(f, r, c) <= k <= c ==> #[trigger] f.active(r, k),
        !f.active(r, run_start(f, r, c) - 1),
    decreases c,
{
    if c > 0 && f.active(r, c - 1) {
        lemma_run_start(f, r, c - 1);
    }
}

proof fn lemma_run_end(f: FrameModel, r: int, c: int)
    requires
        0 <= c <= f.width,
    ensures
        c <= run_end(f, r, c) <= f.width,
        forall|k: int| c <= k < run_end(f, r, c) ==> #[trigger] f.active(r, k),
        !f.active(r, run_end(f, r, c)),
    decreases f.width - c,
{
    if c < f.width && f.active(r, c) {
        lemma_run_end(f, r, c + 1);
    }
}

/// Two runs of one row that share a pixel are the same run.
proof fn lemma_run_unique(f: FrameModel, r: int, x1: int, len1: int, x2: int, len2: int, c: int)
    requires
        f.is_run(r, x1, len1),
        f.is_run(r, x2, len2),
        x1 <= c < x1 + len1,
        x2 <= c < x2 + len2,
    ensures
        x1 == x2,
        len1 == len2,
{
    if x1 < x2 {
        assert(f.active(r, x2 - 1));
    }
    if x2 < x1 {
        assert(f.active(r, x1 - 1));
    }
    if x1 + len1 < x2 + len2 {
        assert(f.active(r, x1 + len1));
    }
    if x2 + len2 < x1 + len1 {
        assert(f.active(r, x2 + len2));
    }
}

/// Two partial blocks that share a row and a first column, with the same
/// width, are the same block.
proof fn lemma_partial_unique(
    f: FrameModel,
    a: PixelRect,
    b: PixelRect,
    lim_r: int,
    lim_c: int,
    r: int,
)
    requires
        is_partial(f, a, lim_r, lim_c),
        is_partial(f, b, lim_r, lim_c),
        a.x == b.x,
        a.w == b.w,
        a.y <= r < a.y + a.h,
        b.y <= r < b.y + b.h,
    ensures
        a == b,
{
    if a.y < b.y {
        assert(seen(f, b.y - 1, a.x as int, a.w as int, lim_r, lim_c));
    }
    if b.y < a.y {
        assert(seen(f, a.y - 1, b.x as int, b.w as int, lim_r, lim_c));
    }
    if a.y + a.h < b.y + b.h {
        assert(seen(f, a.y + a.h, b.x as int, b.w as int, lim_r, lim_c));
    }
    if b.y + b.h < a.y + a.h {
        assert(seen(f, b.y + b.h, a.x as int, a.w as int, lim_r, lim_c));
    }
}

/// A partial block lies in the frame and in the rows that the scan has met.
proof fn lemma_partial_bounds(f: FrameModel, q: PixelRect, lim_r: int, lim_c: int)
    requires
        is_partial(f, q, lim_r, lim_c),
    ensures
        q.w >= 1,
        q.x + q.w <= f.width,
        q.y + q.h <= lim_r + 1,
        q.y + q.h <= f.height,
        q.y + q.h == lim_r + 1 ==> q.x < lim_c,
{
    let last = q.y + q.h - 1;
    assert(seen(f, last, q.x as int, q.w as int, lim_r, lim_c));
    assert(f.active(last, q.x as int));
    assert(f.active(last, q.x + q.w - 1));
}

/// A pixel that is not active starts no run: moving past it changes nothing.
proof fn lemma_step_inactive(f: FrameModel, rects: Seq<PixelRect>, y: int, x: int)
    requires
        progress(f, rects, y, x),
        !f.active(y, x),
    ensures
        progress(f, rects, y, x + 1),
{
    assert forall|r: int, xs: int, len: int|
        seen(f, r, xs, len, y, x) == #[trigger] seen(f, r, xs, len, y, x + 1) by {
        if f.is_run(r, xs, len) && r == y && xs == x {
            assert(f.active(r, xs));
        }
    }
    assert forall|q: PixelRect| is_partial(f, q, y, x) == #[trigger] is_partial(f, q, y, x + 1) by {
        lemma_partial_same(f, q, y, x, y, x + 1);
    }
    assert forall|i: int| 0 <= i < rects.len() implies is_partial(
        f,
        #[trigger] rects[i],
        y,
        x + 1,
    ) by {
        assert(is_partial(f, rects[i], y, x));
    }
    assert forall|q: PixelRect| #[trigger] is_partial(f, q, y, x + 1) implies rects.contains(q) by {
        assert(is_partial(f, q, y, x));
    }
}

/// Where two positions have met the same runs, they have the same partial
/// blocks.
proof fn lemma_partial_same(
    f: FrameModel,
    q: PixelRect,
    r1: int,
    c1: int,
    r2: int,
    c2: int,
)
    requires
        forall|r: int, xs: int, len: int|
            seen(f, r, xs, len, r1, c1) == #[trigger] seen(f, r, xs, len, r2, c2),
    ensures
        is_partial(f, q, r1, c1) == is_partial(f, q, r2, c2),
{
    if is_partial(f, q, r1, c1) {
        assert forall|r: int| q.y <= r < q.y + q.h implies #[trigger] seen(
            f,
            r,
            q.x as int,
            q.w as int,
            r2,
            c2,
        ) by {
            assert(seen(f, r, q.x as int, q.w as int, r1, c1));
        }
        assert(seen(f, q.y + q.h, q.x as int, q.w as int, r1, c1) == seen(
            f,
            q.y + q.h,
            q.x as int,
            q.w as int,
            r2,
            c2,
        ));
    }
    if is_partial(f, q, r2, c2) {
        assert forall|r: int| q.y <= r < q.y + q.h implies #[trigger] seen(
            f,
            r,
            q.x as int,
            q.w as int,
            r1,
            c1,
        ) by {
            assert(seen(f, r, q.x as int, q.w as int, r2, c2));
            assert(seen(f, r, q.x as int, q.w as int, r1, c1) == seen(
                f,
                r,
                q.x as int,
                q.w as int,
                r2,
                c2,
            ));
        }
        assert(seen(f, q.y + q.h, q.x as int, q.w as int, r1, c1) == seen(
            f,
            q.y + q.h,
            q.x as int,
            q.w as int,
            r2,
            c2,
        ));
    }
}

/// A finished row is the start of the next.
proof fn lemma_row_done(f: FrameModel, rects: Seq<PixelRect>, y: int)
    requires
        progress(f, rects, y, f.width),
    ensures
        progress(f, rects, y + 1, 0),
{
    assert forall|r: int, xs: int, len: int|
        seen(f, r, xs, len, y, f.width) == #[trigger] seen(f, r, xs, len, y + 1, 0) by {
        if f.is_run(r, xs, len) {
            assert(f.active(r, xs));
        }
    }
    assert forall|q: PixelRect|
        is_partial(f, q, y, f.width) == #[trigger] is_partial(f, q, y + 1, 0) by {
        lemma_partial_same(f, q, y, f.width, y + 1, 0);
    }
    assert forall|i: int| 0 <= i < rects.len() implies is_partial(
        f,
        #[trigger] rects[i],
        y + 1,
        0,
    ) by {
        assert(is_partial(f, rects[i], y, f.width));
    }
    assert forall|q: PixelRect| #[trigger] is_partial(f, q, y + 1, 0) implies rects.contains(q) by {
        assert(is_partial(f, q, y, f.width));
    }
}

/// Nothing has been met before the first pixel.
proof fn lemma_start(f: FrameModel)
    ensures
        progress(f, Seq::<PixelRect>::empty(), 0, 0),
{
    assert forall|q: PixelRect| #[trigger] is_partial(f, q, 0, 0) implies Seq::<
        PixelRect,
    >::empty().contains(q) by {
        assert(seen(f, q.y as int, q.x as int, q.w as int, 0, 0));
    }
}

/// Once every row is finished, the partial blocks are the blocks.
proof fn lemma_finish(f: FrameModel, rects: Seq<PixelRect>)
    requires
        progress(f, rects, f.height, 0),
    ensures
        is_extraction(f, rects),
{
    assert forall|r: int, xs: int, len: int|
        f.is_run(r, xs, len) == #[trigger] seen(f, r, xs, len, f.height, 0) by {
        if f.is_run(r, xs, len) {
            assert(f.active(r, xs));
        }
    }
    assert forall|q: PixelRect| f.is_block(q) == is_partial(f, q, f.height, 0) by {
        if f.is_block(q) {
            assert forall|r: int| q.y <= r < q.y + q.h implies #[trigger] seen(
                f,
                r,
                q.x as int,
                q.w as int,
                f.height,
                0,
            ) by {
                assert(f.is_run(r, q.x as int, q.w as int));
            }
            assert(f.is_run(q.y + q.h, q.x as int, q.w as int) == seen(
                f,
                q.y + q.h,
                q.x as int,
                q.w as int,
                f.height,
                0,
            ));
        }
        if is_partial(f, q, f.height, 0) {
            assert forall|r: int| q.y <= r < q.y + q.h implies #[trigger] f.is_run(
                r,
                q.x as int,
                q.w as int,
            ) by {
                assert(seen(f, r, q.x as int, q.w as int, f.height, 0));
            }
            assert(f.is_run(q.y + q.h, q.x as int, q.w as int) == seen(
                f,
                q.y + q.h,
                q.x as int,
                q.w as int,
                f.height,
                0,
            ));
        }
    }
    assert forall|i: int| 0 <= i < rects.len() implies f.is_block(#[trigger] rects[i]) by {
        assert(is_partial(f, rects[i], f.height, 0));
    }
    assert forall|q: PixelRect| #[trigger] f.is_block(q) implies rects.contains(q) by {
        assert(is_partial(f, q, f.height, 0));
    }
}

/// A rectangle with one more row.
spec fn grown(q: PixelRect) -> PixelRect {
    PixelRect { x: q.x, y: q.y, w: q.w, h: (q.h + 1) as u16 }
}

/// Once the scan has passed a run, it has met that run and nothing else new.
proof fn lemma_seen_after_run(f: FrameModel, y: int, sx: int, ex: int)
    requires
        f.is_run(y, sx, ex - sx),
    ensures
        forall|r: int, xs: int, len: int| #[trigger]
            seen(f, r, xs, len, y, ex) == (seen(f, r, xs, len, y, sx) || (r == y && xs == sx && len
                == ex - sx)),
{
    assert forall|r: int, xs: int, len: int| #[trigger]
        seen(f, r, xs, len, y, ex) == (seen(f, r, xs, len, y, sx) || (r == y && xs == sx && len
            == ex - sx)) by {
        if f.is_run(r, xs, len) && r == y && sx <= xs < ex {
            assert(f.active(y, xs));
            lemma_run_unique(f, y, sx, ex - sx, xs, len, xs);
        }
    }
}

/// Two equal entries of an ordered list stand at the same index.
proof fn lemma_ordered_distinct(rects: Seq<PixelRect>, i: int, j: int)
    requires
        ordered(rects),
        0 <= i < rects.len(),
        0 <= j < rects.len(),
        rects[i] == rects[j],
    ensures
        i == j,
{
    if i < j {
        assert(starts_before(rects[i], rects[j]));
    }
    if j < i {
        assert(starts_before(rects[j], rects[i]));
    }
}

/// A run that continues the rectangle ending just above it makes that
/// rectangle one row taller.
proof fn lemma_step_merge(f: FrameModel, rects: Seq<PixelRect>, idx: int, y: int, sx: int, ex: int)
    requires
        f.valid(),
        0 <= y < f.height,
        progress(f, rects, y, sx),
        f.is_run(y, sx, ex - sx),
        0 <= idx < rects.len(),
        rects[idx].x == sx,
        rects[idx].w == ex - sx,
        rects[idx].y + rects[idx].h == y,
    ensures
        progress(f, rects.update(idx, grown(rects[idx])), y, ex),
{
    let len = ex - sx;
    let old_r = rects[idx];
    let new_r = grown(old_r);
    let after = rects.update(idx, new_r);
    lemma_seen_after_run(f, y, sx, ex);
    assert(is_partial(f, old_r, y, sx));
    assert(seen(f, y - 1, sx, len, y, sx));
    assert(seen(f, y, sx, len, y, ex));
    // every entry is a block of what has been met
    assert forall|i: int| 0 <= i < after.len() implies is_partial(f, #[trigger] after[i], y, ex) by {
        let q = rects[i];
        assert(is_partial(f, q, y, sx));
        if i == idx {
            assert forall|r: int| new_r.y <= r < new_r.y + new_r.h implies #[trigger] seen(
                f,
                r,
                new_r.x as int,
                new_r.w as int,
                y,
                ex,
            ) by {
                if r < y {
                    assert(seen(f, r, sx, len, y, sx));
                }
            }
            assert(!seen(f, y + 1, sx, len, y, ex));
        } else {
            assert forall|r: int| q.y <= r < q.y + q.h implies #[trigger] seen(
                f,
                r,
                q.x as int,
                q.w as int,
                y,
                ex,
            ) by {
                assert(seen(f, r, q.x as int, q.w as int, y, sx));
            }
            if seen(f, q.y + q.h, q.x as int, q.w as int, y, ex) {
                lemma_partial_unique(f, q, old_r, y, sx, y - 1);
                lemma_ordered_distinct(rects, i, idx);
            }
        }
    }
    // the order is kept
    assert forall|i: int, j: int| 0 <= i < j < after.len() implies starts_before(
        #[trigger] after[i],
        #[trigger] after[j],
    ) by {
        assert(starts_before(rects[i], rects[j]));
    }
    // every block of what has been met is an entry
    assert forall|q: PixelRect| #[trigger] is_partial(f, q, y, ex) implies after.contains(q) by {
        lemma_partial_bounds(f, q, y, ex);
        if q.y <= y < q.y + q.h && q.x == sx && q.w == len {
            if q.h == 1 {
                assert(f.is_run(y - 1, sx, len));
                assert(false);
            }
            let shorter = PixelRect { x: q.x, y: q.y, w: q.w, h: (q.h - 1) as u16 };
            assert forall|r: int| shorter.y <= r < shorter.y + shorter.h implies #[trigger] seen(
                f,
                r,
                shorter.x as int,
                shorter.w as int,
                y,
                sx,
            ) by {
                assert(seen(f, r, q.x as int, q.w as int, y, ex));
            }
            assert(is_partial(f, shorter, y, sx));
            lemma_partial_unique(f, shorter, old_r, y, sx, y - 1);
            assert(after[idx] == q);
        } else {
            assert forall|r: int| q.y <= r < q.y + q.h implies #[trigger] seen(
                f,
                r,
                q.x as int,
                q.w as int,
                y,
                sx,
            ) by {
                assert(seen(f, r, q.x as int, q.w as int, y, ex));
            }
            assert(is_partial(f, q, y, sx));
            assert(rects.contains(q));
            let j = choose|j: int| 0 <= j < rects.len() && rects[j] == q;
            assert(j != idx);
            assert(after[j] == q);
        }
    }
}

/// The rectangle that a run starts when nothing above it can be continued.
spec fn fresh(y: int, sx: int, ex: int) -> PixelRect {
    PixelRect { x: sx as u16, y: y as u16, w: (ex - sx) as u16, h: 1 }
}

/// A run that continues no rectangle starts a new one, which comes last.
proof fn lemma_step_new(f: FrameModel, rects: Seq<PixelRect>, y: int, sx: int, ex: int)
    requires
        f.valid(),
        0 <= y < f.height,
        progress(f, rects, y, sx),
        f.is_run(y, sx, ex - sx),
        forall|i: int|
            0 <= i < rects.len() ==> !((#[trigger] rects[i]).x == sx && rects[i].w == ex - sx
                && rects[i].y + rects[i].h == y),
    ensures
        progress(f, rects.push(fresh(y, sx, ex)), y, ex),
{
    let len = ex - sx;
    let added = fresh(y, sx, ex);
    let after = rects.push(added);
    lemma_seen_after_run(f, y, sx, ex);
    assert(f.active(y, sx));
    assert(f.active(y, ex - 1));
    assert(seen(f, y, sx, len, y, ex));
    // the row above does not hold this run
    if f.is_run(y - 1, sx, len) {
        lemma_stack_top(f, y - 1, sx, len);
        let t = stack_top(f, y - 1, sx, len);
        let above = PixelRect { x: sx as u16, y: t as u16, w: len as u16, h: (y - t) as u16 };
        assert forall|r: int| above.y <= r < above.y + above.h implies #[trigger] seen(
            f,
            r,
            above.x as int,
            above.w as int,
            y,
            sx,
        ) by {
            assert(f.is_run(r, sx, len));
        }
        assert(is_partial(f, above, y, sx));
        assert(rects.contains(above));
        assert(false);
    }
    assert forall|i: int| 0 <= i < after.len() implies is_partial(f, #[trigger] after[i], y, ex) by {
        if i < rects.len() {
            let q = rects[i];
            assert(is_partial(f, q, y, sx));
            assert forall|r: int| q.y <= r < q.y + q.h implies #[trigger] seen(
                f,
                r,
                q.x as int,
                q.w as int,
                y,
                ex,
            ) by {
                assert(seen(f, r, q.x as int, q.w as int, y, sx));
            }
        } else {
            assert(!seen(f, y + 1, sx, len, y, ex));
        }
    }
    assert forall|i: int, j: int| 0 <= i < j < after.len() implies starts_before(
        #[trigger] after[i],
        #[trigger] after[j],
    ) by {
        if j < rects.len() {
            assert(starts_before(rects[i], rects[j]));
        } else {
            let q = rects[i];
            assert(is_partial(f, q, y, sx));
            lemma_partial_bounds(f, q, y, sx);
            assert(seen(f, q.y as int, q.x as int, q.w as int, y, sx));
        }
    }
    assert forall|q: PixelRect| #[trigger] is_partial(f, q, y, ex) implies after.contains(q) by {
        lemma_partial_bounds(f, q, y, ex);
        if q.y <= y < q.y + q.h && q.x == sx && q.w == len {
            if q.h > 1 {
                assert(seen(f, y - 1, q.x as int, q.w as int, y, ex));
                assert(false);
            }
            assert(q == added);
            assert(after[rects.len() as int] == q);
        } else {
            assert forall|r: int| q.y <= r < q.y + q.h implies #[trigger] seen(
                f,
                r,
                q.x as int,
                q.w as int,
                y,
                sx,
            ) by {
                assert(seen(f, r, q.x as int, q.w as int, y, ex));
            }
            assert(is_partial(f, q, y, sx));
            assert(rects.contains(q));
            let j = choose|j: int| 0 <= j < rects.len() && rects[j] == q;
            assert(after[j] == q);
        }
    }
}

/// A pixel of the frame has its place in the buffer.
proof fn lemma_index(y: int, x: int, w: int, h: int)
    requires
        0 <= y < h,
        0 <= x <= w,
    ensures
        0 <= y * w,
        y * w + x <= w * h,
        x < w ==> y * w + x < w * h,
        (y + 1) * w == y * w + w,
        (y + 1) * (w + 1) == y * (w + 1) + w + 1,
        (y + 1) * (w + 1) <= h * (w + 1),
{
    assert(0 <= y * w) by (nonlinear_arith)
        requires
            0 <= y,
            0 <= w,
    ;
    assert((y + 1) * w == y * w + w) by (nonlinear_arith);
    assert((y + 1) * w <= h * w) by (nonlinear_arith)
        requires
            y + 1 <= h,
            0 <= w,
    ;
    assert(h * w == w * h) by (nonlinear_arith);
    assert((y + 1) * (w + 1) == y * (w + 1) + w + 1) by (nonlinear_arith);
    assert((y + 1) * (w + 1) <= h * (w + 1)) by (nonlinear_arith)
        requires
            y + 1 <= h,
            0 <= w,
    ;
}

/// The most rows times columns-plus-one that a frame can have.
proof fn lemma_cap(w: int, h: int)
    requires
        0 <= w <= u16::MAX,
        0 <= h <= u16::MAX,
    ensures
        h * (w + 1) <= 0xffff * 0x1_0000,
{
    assert(h * (w + 1) <= 0xffff * 0x1_0000) by (nonlinear_arith)
        requires
            0 <= w <= 0xffff,
            0 <= h <= 0xffff,
    ;
}

/// Marks every column of the scratch array as naming no rectangle.
fn clear_scratch(scratch: &mut Vec<isize>)
    ensures
        final(scratch)@.len() == old(scratch)@.len(),
        forall|i: int| 0 <= i < final(scratch)@.len() ==> final(scratch)@[i] == -1,
{
    let n = scratch.len();
    let mut i: usize = 0;
    while i < n
        invariant
            i <= n,
            scratch@.len() == n,
            forall|k: int| 0 <= k < i ==> scratch@[k] == -1,
        decreases n - i,
    {
        scratch.set(i, -1);
        i = i + 1;
    }
}

/// The column after the run that starts in column `start` of a row.
fn scan_run(buffer: &[u8], row_start: usize, w: usize, start: usize, threshold: u8) -> (end: usize)
    requires
        row_start + w <= buffer@.len() <= usize::MAX,
        start < w,
        buffer@[row_start + start] >= threshold,
    ensures
        start < end <= w,
        forall|k: int| row_start + start <= k < row_start + end ==> buffer@[k] >= threshold,
        end < w ==> buffer@[row_start + end] < threshold,
{
    let mut x: usize = start + 1;
    while x < w && buffer[row_start + x] >= threshold
        invariant
            row_start + w <= buffer@.len() <= usize::MAX,
            start < x <= w,
            forall|k: int| row_start + start <= k < row_start + x ==> buffer@[k] >= threshold,
        decreases w - x,
    {
        x = x + 1;
    }
    x
}

/// Extracts the rectangles of one frame.
///
/// `buffer` holds `width * height` pixels, row by row. `active_indices` is
/// scratch space of `width` entries that a caller may keep from one frame to
/// the next; what it holds on entry does not matter. The result is the list
/// of the frame's blocks in order of their top-left corners, without the
/// end-of-frame marker.
pub fn extract_rects_optimized(
    buffer: &[u8],
    width: u32,
    height: u32,
    threshold: u8,
    active_indices: &mut Vec<isize>,
) -> (boxes: Vec<PixelRect>)
    requires
        width <= u16::MAX,
        height <= u16::MAX,
        buffer@.len() == width * height,
        old(active_indices)@.len() == width,
    ensures
        is_extraction(frame_of(buffer@, width, height, threshold), boxes@),
        final(active_indices)@.len() == width,
{
    let w = width as usize;
    let h = height as usize;
    let total = buffer.len();
    let ghost f = frame_of(buffer@, width, height, threshold);
    clear_scratch(active_indices);
    let mut boxes: Vec<PixelRect> = Vec::with_capacity(4000);
    proof {
        lemma_start(f);
        lemma_cap(w as int, h as int);
        assert(boxes@ =~= Seq::<PixelRect>::empty());
    }
    let mut y: usize = 0;
    while y < h
        invariant
            f == frame_of(buffer@, width, height, threshold),
            f.valid(),
            w == width,
            h == height,
            total == buffer@.len(),
            total == w * h,
            y <= h,
            active_indices@.len() == w,
            progress(f, boxes@, y as int, 0),
            scratch_names(boxes@, active_indices@, y as int, 0),
            2 * boxes@.len() <= y * (w + 1),
            h * (w + 1) <= 0xffff * 0x1_0000,
        decreases h - y,
    {
        proof {
            lemma_index(y as int, w as int, w as int, h as int);
        }
        let row_start: usize = y * w;
        let ghost cap: int = y * (w + 1);
        let mut x: usize = 0;
        while x < w
            invariant
                f == frame_of(buffer@, width, height, threshold),
                f.valid(),
                w == width,
                h == height,
                y < h,
                x <= w,
                row_start == y * w,
                row_start + w <= buffer@.len() <= usize::MAX,
                active_indices@.len() == w,
                progress(f, boxes@, y as int, x as int),
                scratch_names(boxes@, active_indices@, y as int, x as int),
                x < w && f.active(y as int, x as int) ==> !f.active(y as int, x - 1),
                cap == y * (w + 1),
                cap + w + 1 <= 0xffff * 0x1_0000,
                2 * boxes@.len() <= cap + x + (if x > 0 && f.active(y as int, x - 1) {
                    1int
                } else {
                    0int
                }),
            decreases w - x,
        {
            let pixel = buffer[row_start + x];
            if pixel < threshold {
                proof {
                    assert(!f.active(y as int, x as int));
                    lemma_step_inactive(f, boxes@, y as int, x as int);
                    assert forall|i: int| 0 <= i < boxes@.len() implies (#[trigger] boxes@[i]).x
                        < w && (boxes@[i].y + boxes@[i].h == y + 1 ==> boxes@[i].x < x) by {
                        assert(is_partial(f, boxes@[i], y as int, x as int));
                        lemma_partial_bounds(f, boxes@[i], y as int, x as int);
                    }
                }
                if active_indices[x] != -1 {
                    active_indices.set(x, -1);
                }
                x = x + 1;
            } else {
                let start_x = x;
                x = scan_run(buffer, row_start, w, start_x, threshold);
                proof {
                    assert forall|c: int| start_x <= c < x implies #[trigger] f.active(
                        y as int,
                        c,
                    ) by {
                        assert(buffer@[row_start + c] >= threshold);
                    }
                    assert(f.active(y as int, start_x as int));
                    assert(!f.active(y as int, start_x - 1));
                    assert(!f.active(y as int, x as int));
                    assert(f.is_run(y as int, start_x as int, x - start_x));
                    assert forall|i: int| 0 <= i < boxes@.len() implies (#[trigger] boxes@[i]).x
                        < w && boxes@[i].y + boxes@[i].h <= y + 1 && (boxes@[i].y + boxes@[i].h
                        == y + 1 ==> boxes@[i].x < start_x) by {
                        assert(is_partial(f, boxes@[i], y as int, start_x as int));
                        lemma_partial_bounds(f, boxes@[i], y as int, start_x as int);
                    }
                }
                let run_width: u16 = (x - start_x) as u16;
                let current_start_x: u16 = start_x as u16;
                let active_idx: isize = active_indices[start_x];
                let mut merged = false;
                if active_idx >= 0 {
                    let idx = active_idx as usize;
                    if idx < boxes.len() {
                        let b = boxes[idx];
                        if b.y as u32 + b.h as u32 == y as u32 && b.x == current_start_x && b.w
                            == run_width {
                            proof {
                                lemma_step_merge(
                                    f,
                                    boxes@,
                                    idx as int,
                                    y as int,
                                    start_x as int,
                                    x as int,
                                );
                            }
                            boxes.set(idx, PixelRect { x: b.x, y: b.y, w: b.w, h: b.h + 1 });
                            merged = true;
                        }
                    }
                }
                if !merged {
                    proof {
                        assert forall|i: int| 0 <= i < boxes@.len() implies !((
                        #[trigger] boxes@[i]).x == start_x && boxes@[i].w == x - start_x
                            && boxes@[i].y + boxes@[i].h == y) by {
                            if boxes@[i].x == start_x && boxes@[i].w == x - start_x && boxes@[i].y
                                + boxes@[i].h == y {
                                assert(active_indices@[start_x as int] == i);
                            }
                        }
                        lemma_step_new(f, boxes@, y as int, start_x as int, x as int);
                    }
                    let new_idx: isize = boxes.len() as isize;
                    boxes.push(PixelRect { x: current_start_x, y: y as u16, w: run_width, h: 1 });
                    active_indices.set(start_x, new_idx);
                }
            }
        }
        proof {
            lemma_row_done(f, boxes@, y as int);
            assert forall|i: int| 0 <= i < boxes@.len() implies (#[trigger] boxes@[i]).y
                + boxes@[i].h <= y + 1 by {
                assert(is_partial(f, boxes@[i], y as int, w as int));
                lemma_partial_bounds(f, boxes@[i], y as int, w as int);
            }
        }
        y = y + 1;
    }
    proof {
        lemma_finish(f, boxes@);
    }
    boxes
}

/// Two strictly ordered lists with the same entries are the same list.
proof fn lemma_ordered_same_members(a: Seq<PixelRect>, b: Seq<PixelRect>)
    requires
        ordered(a),
        ordered(b),
        forall|q: PixelRect| a.contains(q) <==> b.contains(q),
    ensures
        a == b,
    decreases a.len(),
{
    if a.len() == 0 {
        if b.len() > 0 {
            assert(b.contains(b[0]));
            assert(a.contains(b[0]));
        }
        assert(a =~= b);
    } else {
        assert(a.contains(a[0]));
        assert(b.contains(a[0]));
        let la = a.last();
        let lb = b.last();
        assert(a.contains(la));
        assert(b.contains(lb));
        assert(b.contains(la));
        assert(a.contains(lb));
        let j = choose|j: int| 0 <= j < b.len() && b[j] == la;
        let k = choose|k: int| 0 <= k < a.len() && a[k] == lb;
        if k < a.len() - 1 {
            assert(starts_before(a[k], a[a.len() - 1]));
        }
        if j < b.len() - 1 {
            assert(starts_before(b[j], b[b.len() - 1]));
        }
        assert(la == lb);
        let a0 = a.drop_last();
        let b0 = b.drop_last();
        assert forall|i: int, m: int| 0 <= i < m < a0.len() implies starts_before(
            #[trigger] a0[i],
            #[trigger] a0[m],
        ) by {
            assert(starts_before(a[i], a[m]));
        }
        assert forall|i: int, m: int| 0 <= i < m < b0.len() implies starts_before(
            #[trigger] b0[i],
            #[trigger] b0[m],
        ) by {
            assert(starts_before(b[i], b[m]));
        }
        assert forall|q: PixelRect| a0.contains(q) <==> b0.contains(q) by {
            if a0.contains(q) {
                let i = choose|i: int| 0 <= i < a0.len() && a0[i] == q;
                assert(a[i] == q);
                assert(starts_before(a[i], a[a.len() - 1]));
                assert(a.contains(q));
                assert(b.contains(q));
                let m = choose|m: int| 0 <= m < b.len() && b[m] == q;
                assert(m < b.len() - 1);
                assert(b0[m] == q);
            }
            if b0.contains(q) {
                let i = choose|i: int| 0 <= i < b0.len() && b0[i] == q;
                assert(b[i] == q);
                assert(starts_before(b[i], b[b.len() - 1]));
                assert(b.contains(q));
                assert(a.contains(q));
                let m = choose|m: int| 0 <= m < a.len() && a[m] == q;
                assert(m < a.len() - 1);
                assert(a0[m] == q);
            }
        }
        lemma_ordered_same_members(a0, b0);
        assert(a =~= a0.push(la));
        assert(b =~= b0.push(lb));
    }
}

/// A frame has one rectangle list only: two lists that both are the
/// rectangles of the same frame are equal, entry by entry. So extracting
/// twice from the same frame gives the same list, whatever the scratch array
/// held.
pub proof fn extraction_is_unique(f: FrameModel, a: Seq<PixelRect>, b: Seq<PixelRect>)
    requires
        is_extraction(f, a),
        is_extraction(f, b),
    ensures
        a == b,
{
    assert forall|q: PixelRect| a.contains(q) <==> b.contains(q) by {
        if a.contains(q) {
            let i = choose|i: int| 0 <= i < a.len() && a[i] == q;
            assert(f.is_block(a[i]));
        }
        if b.contains(q) {
            let i = choose|i: int| 0 <= i < b.len() && b[i] == q;
            assert(f.is_block(b[i]));
        }
    }
    lemma_ordered_same_members(a, b);
}

/// Every active pixel lies in a block.
proof fn lemma_block_around(f: FrameModel, r: int, c: int) -> (q: PixelRect)
    requires
        f.valid(),
        f.active(r, c),
    ensures
        f.is_block(q),
        covers(q, r, c),
{
    lemma_run_start(f, r, c);
    lemma_run_end(f, r, c);
    lemma_run_end(f, r, c + 1);
    let xs = run_start(f, r, c);
    let xe = run_end(f, r, c);
    let len = xe - xs;
    assert(xe == run_end(f, r, c + 1));
    assert forall|k: int| xs <= k < xs + len implies #[trigger] f.active(r, k) by {
        if k <= c {
            assert(f.active(r, k));
        } else {
            assert(f.active(r, k));
        }
    }
    assert(f.is_run(r, xs, len));
    lemma_stack_top(f, r, xs, len);
    lemma_stack_bottom(f, r, xs, len);
    lemma_stack_bottom(f, r + 1, xs, len);
    let top = stack_top(f, r, xs, len);
    let bottom = stack_bottom(f, r, xs, len);
    assert(bottom == stack_bottom(f, r + 1, xs, len));
    let q = PixelRect { x: xs as u16, y: top as u16, w: len as u16, h: (bottom - top) as u16 };
    assert forall|k: int| q.y <= k < q.y + q.h implies #[trigger] f.is_run(
        k,
        q.x as int,
        q.w as int,
    ) by {
        if k <= r {
            assert(f.is_run(k, xs, len));
        } else {
            assert(f.is_run(k, xs, len));
        }
    }
    q
}

/// Painting the rectangles of a frame onto an empty canvas gives back the
/// frame's active pixels, no more and no fewer: a pixel is covered by some
/// rectangle of the list exactly when it is active.
pub proof fn extraction_paints_active(f: FrameModel, rects: Seq<PixelRect>)
    requires
        f.valid(),
        is_extraction(f, rects),
    ensures
        forall|r: int, c: int| #[trigger] painted(rects, r, c) <==> f.active(r, c),
{
    assert forall|r: int, c: int| #[trigger] painted(rects, r, c) <==> f.active(r, c) by {
        if painted(rects, r, c) {
            let i = choose|i: int| 0 <= i < rects.len() && covers(#[trigger] rects[i], r, c);
            assert(f.is_block(rects[i]));
            assert(f.is_run(r, rects[i].x as int, rects[i].w as int));
            assert(f.active(r, c));
        }
        if f.active(r, c) {
            let q = lemma_block_around(f, r, c);
            assert(rects.contains(q));
            let i = choose|i: int| 0 <= i < rects.len() && rects[i] == q;
            assert(covers(rects[i], r, c));
        }
    }
}

} // verus!
