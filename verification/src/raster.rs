//! Painting rectangles onto a canvas of 32-bit pixels, row by row.
//!
//! The canvas is `screen_w` pixels wide and `screen_h` pixels high. A
//! rectangle is clipped to the canvas. A row of it that would end past the
//! end of the buffer is left out whole.

use crate::extract::{covers, painted};
use crate::rect::PixelRect;
use vstd::prelude::*;

verus! {

/// The colour of a painted pixel.
pub const WHITE: u32 = 0xFFFF_FFFF;

/// The colour of an empty canvas.
pub const BLACK: u32 = 0xFF00_0000;

/// `lo + extent`, but no more than `limit`.
pub open spec fn clipped(lo: int, extent: int, limit: int) -> int {
    if lo + extent < limit {
        lo + extent
    } else {
        limit
    }
}

/// Row `r` of a rectangle that spans the columns from `x` up to `right`
/// fits a buffer of `len` pixels and holds the pixel at index `k`.
pub open spec fn row_hits(len: int, screen_w: int, x: int, right: int, r: int, k: int) -> bool {
    r * screen_w + right <= len && r * screen_w + x <= k < r * screen_w + right
}

/// One of the rows from `lo` up to `hi` holds the pixel at index `k`.
pub open spec fn rows_hit(
    len: int,
    screen_w: int,
    x: int,
    right: int,
    lo: int,
    hi: int,
    k: int,
) -> bool {
    exists|r: int| lo <= r < hi && #[trigger] row_hits(len, screen_w, x, right, r, k)
}

/// Drawing the rectangle paints the pixel at index `k`.
pub open spec fn drawn(
    len: int,
    screen_w: int,
    screen_h: int,
    x: int,
    y: int,
    w: int,
    h: int,
    k: int,
) -> bool {
    &&& x < screen_w
    &&& y < screen_h
    &&& rows_hit(len, screen_w, x, clipped(x, w, screen_w), y, clipped(y, h, screen_h), k)
}

/// `lo + extent`, but no more than `limit`.
fn clip(lo: usize, extent: usize, limit: usize) -> (end: usize)
    ensures
        end == clipped(lo as int, extent as int, limit as int),
{
    match lo.checked_add(extent) {
        Some(sum) => if sum < limit {
            sum
        } else {
            limit
        },
        None => limit,
    }
}

/// Paints one rectangle white. The rectangle is clipped to the canvas; one
/// that starts outside the canvas paints nothing. Every other pixel keeps its
/// colour.
pub fn draw_rect(
    buffer: &mut [u32],
    screen_w: usize,
    screen_h: usize,
    x: usize,
    y: usize,
    w: usize,
    h: usize,
)
    ensures
        final(buffer)@.len() == old(buffer)@.len(),
        forall|k: int|
            0 <= k < old(buffer)@.len() ==> #[trigger] final(buffer)@[k] == if drawn(
                old(buffer)@.len() as int,
                screen_w as int,
                screen_h as int,
                x as int,
                y as int,
                w as int,
                h as int,
                k,
            ) {
                WHITE
            } else {
                old(buffer)@[k]
            },
{
    let right = clip(x, w, screen_w);
    let bottom = clip(y, h, screen_h);
    if x >= screen_w || y >= screen_h {
        return;
    }
    let len = buffer.len();
    let ghost start = buffer@;
    let mut r: usize = y;
    while r < bottom
        invariant
            len == start.len(),
            buffer@.len() == len,
            y <= r <= bottom <= screen_h,
            x < right <= screen_w || right == x,
            right == clipped(x as int, w as int, screen_w as int),
            forall|k: int|
                0 <= k < len ==> #[trigger] buffer@[k] == if rows_hit(
                    len as int,
                    screen_w as int,
                    x as int,
                    right as int,
                    y as int,
                    r as int,
                    k,
                ) {
                    WHITE
                } else {
                    start[k]
                },
        decreases bottom - r,
    {
        let ghost before = buffer@;
        let mut painted_row = false;
        match r.checked_mul(screen_w) {
            Some(row_start) => match row_start.checked_add(right) {
                Some(row_end) => {
                    if row_end <= len {
                        let mut c: usize = row_start + x;
                        while c < row_end
                            invariant
                                buffer@.len() == len,
                                row_start + x <= c <= row_end || (right == x && c == row_start + x),
                                row_end == row_start + right,
                                row_end <= len,
                                forall|k: int|
                                    0 <= k < len ==> #[trigger] buffer@[k] == if row_start + x <= k
                                        < c {
                                        WHITE
                                    } else {
                                        before[k]
                                    },
                            decreases row_end - c,
                        {
                            buffer[c] = WHITE;
                            c = c + 1;
                        }
                        painted_row = true;
                    }
                },
                None => {},
            },
            None => {},
        }
        proof {
            let l = len as int;
            let sw = screen_w as int;
            assert forall|k: int| 0 <= k < len implies #[trigger] buffer@[k] == if rows_hit(
                l,
                sw,
                x as int,
                right as int,
                y as int,
                r + 1,
                k,
            ) {
                WHITE
            } else {
                start[k]
            } by {
                assert(painted_row ==> (buffer@[k] == WHITE <==> row_hits(
                    l,
                    sw,
                    x as int,
                    right as int,
                    r as int,
                    k,
                ) || before[k] == WHITE));
                assert(!painted_row ==> !row_hits(l, sw, x as int, right as int, r as int, k));
                if rows_hit(l, sw, x as int, right as int, y as int, r as int, k) {
                    let r0 = choose|r0: int|
                        y <= r0 < r && #[trigger] row_hits(l, sw, x as int, right as int, r0, k);
                    assert(row_hits(l, sw, x as int, right as int, r0, k));
                }
                if row_hits(l, sw, x as int, right as int, r as int, k) {
                    assert(rows_hit(l, sw, x as int, right as int, y as int, r + 1, k));
                }
                if rows_hit(l, sw, x as int, right as int, y as int, r + 1, k) {
                    let r1 = choose|r1: int|
                        y <= r1 < r + 1 && #[trigger] row_hits(l, sw, x as int, right as int, r1, k);
                    if r1 < r {
                        assert(rows_hit(l, sw, x as int, right as int, y as int, r as int, k));
                    }
                }
            }
        }
        r = r + 1;
    }
}

/// Two pixels with the same index in a canvas lie in the same row.
proof fn lemma_same_row(width: int, r1: int, c1: int, r2: int, lo: int, hi: int)
    requires
        0 <= c1 < width,
        0 <= lo,
        hi <= width,
        r2 * width + lo <= r1 * width + c1 < r2 * width + hi,
    ensures
        r1 == r2,
        lo <= c1 < hi,
{
    if r1 < r2 {
        assert(r1 * width + width <= r2 * width) by (nonlinear_arith)
            requires
                r1 + 1 <= r2,
                0 < width,
        ;
    }
    if r2 < r1 {
        assert(r2 * width + width <= r1 * width) by (nonlinear_arith)
            requires
                r2 + 1 <= r1,
                0 < width,
        ;
    }
}

/// A row of the canvas lies in its buffer.
proof fn lemma_row_in_canvas(width: int, height: int, r: int)
    requires
        0 <= r < height,
        0 <= width,
    ensures
        0 <= r * width,
        r * width + width <= width * height,
{
    assert(0 <= r * width) by (nonlinear_arith)
        requires
            0 <= r,
            0 <= width,
    ;
    assert(r * width + width <= width * height) by (nonlinear_arith)
        requires
            r + 1 <= height,
            0 <= width,
    ;
}

/// On a canvas whose buffer holds all of its pixels, drawing a rectangle
/// paints the pixels that the rectangle covers.
proof fn lemma_drawn_covers(width: int, height: int, q: PixelRect, r: int, c: int)
    requires
        0 <= r < height,
        0 <= c < width,
    ensures
        drawn(
            width * height,
            width,
            height,
            q.x as int,
            q.y as int,
            q.w as int,
            q.h as int,
            r * width + c,
        ) == covers(q, r, c),
{
    let len = width * height;
    let right = clipped(q.x as int, q.w as int, width);
    let bottom = clipped(q.y as int, q.h as int, height);
    let k = r * width + c;
    lemma_row_in_canvas(width, height, r);
    if covers(q, r, c) {
        assert(row_hits(len, width, q.x as int, right, r, k));
        assert(rows_hit(len, width, q.x as int, right, q.y as int, bottom, k));
    }
    if drawn(len, width, height, q.x as int, q.y as int, q.w as int, q.h as int, k) {
        let r0 = choose|r0: int|
            q.y <= r0 < bottom && #[trigger] row_hits(len, width, q.x as int, right, r0, k);
        lemma_same_row(width, r, c, r0, q.x as int, right);
    }
}

/// Paints a whole frame: the canvas is cleared to black, then every
/// rectangle is painted white. A pixel ends up white exactly when some
/// rectangle covers it.
pub fn render_frame(rects: &Vec<PixelRect>, buffer: &mut [u32], width: usize, height: usize)
    requires
        old(buffer)@.len() == width * height,
    ensures
        final(buffer)@.len() == old(buffer)@.len(),
        forall|r: int, c: int|
            0 <= r < height && 0 <= c < width ==> final(buffer)@[r * width + c] == if painted(
                rects@,
                r,
                c,
            ) {
                WHITE
            } else {
                BLACK
            },
{
    let len = buffer.len();
    let mut k: usize = 0;
    while k < len
        invariant
            buffer@.len() == len,
            k <= len,
            forall|j: int| 0 <= j < k ==> buffer@[j] == BLACK,
        decreases len - k,
    {
        buffer[k] = BLACK;
        k = k + 1;
    }
    proof {
        assert forall|r: int, c: int| 0 <= r < height && 0 <= c < width implies buffer@[r * width
            + c] == if painted(rects@.subrange(0, 0), r, c) {
            WHITE
        } else {
            BLACK
        } by {
            lemma_row_in_canvas(width as int, height as int, r);
        }
    }
    let mut i: usize = 0;
    while i < rects.len()
        invariant
            buffer@.len() == len,
            len == width * height,
            i <= rects.len(),
            forall|r: int, c: int|
                0 <= r < height && 0 <= c < width ==> buffer@[r * width + c] == if painted(
                    rects@.subrange(0, i as int),
                    r,
                    c,
                ) {
                    WHITE
                } else {
                    BLACK
                },
        decreases rects.len() - i,
    {
        let q = rects[i];
        let ghost before = buffer@;
        draw_rect(buffer, width, height, q.x as usize, q.y as usize, q.w as usize, q.h as usize);
        proof {
            let done = rects@.subrange(0, i as int);
            let more = rects@.subrange(0, i as int + 1);
            assert forall|r: int, c: int| 0 <= r < height && 0 <= c < width implies buffer@[r
                * width + c] == if painted(more, r, c) {
                WHITE
            } else {
                BLACK
            } by {
                lemma_row_in_canvas(width as int, height as int, r);
                lemma_drawn_covers(width as int, height as int, q, r, c);
                let k = r * width + c;
                assert(buffer@[k] == if covers(q, r, c) {
                    WHITE
                } else {
                    before[k]
                });
                if painted(done, r, c) {
                    let j = choose|j: int| 0 <= j < done.len() && covers(#[trigger] done[j], r, c);
                    assert(covers(more[j], r, c));
                }
                if covers(q, r, c) {
                    assert(covers(more[i as int], r, c));
                }
                if painted(more, r, c) {
                    let j = choose|j: int| 0 <= j < more.len() && covers(#[trigger] more[j], r, c);
                    if j < i {
                        assert(covers(done[j], r, c));
                    }
                }
            }
        }
        i = i + 1;
    }
    assert(rects@.subrange(0, i as int) =~= rects@);
}

} // verus!
