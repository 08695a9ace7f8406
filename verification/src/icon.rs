use vstd::prelude::*;

verus! {

/// An RGBA image: `width * height` pixels of four bytes, row by row.
pub struct IconImage {
    pub rgba: Vec<u8>,
    pub width: u32,
    pub height: u32,
}

/// The number of the pixel at column `px` and row `py` in rows of `width` pixels.
pub open spec fn pixel_pos(width: u32, px: int, py: int) -> int {
    py * width + px
}

/// Byte `k` of `buf` after painting, in `color`, the pixels that `selected` names
/// (a pixel is painted only when all four of its bytes lie in the buffer).
pub open spec fn byte_after(buf: Seq<u8>, k: int, selected: bool, color: [u8; 4]) -> u8 {
    if selected && (k / 4) * 4 + 3 < buf.len() {
        color[k % 4]
    } else {
        buf[k]
    }
}

/// Pixel number `p` lies in the `w` by `h` rectangle at column `x`, row `y`.
pub open spec fn in_rect(width: u32, x: int, y: int, w: int, h: int, p: int) -> bool {
    exists|px: int, py: int|
        x <= px < x + w && y <= py < y + h && #[trigger] pixel_pos(width, px, py) == p
}

/// Writes one pixel when all four of its bytes lie in the buffer.
pub fn put_pixel(rgba: &mut Vec<u8>, width: u32, x: u32, y: u32, color: [u8; 4])
    requires
        (y * width + x) * 4 <= u32::MAX,
    ensures
        final(rgba)@.len() == old(rgba)@.len(),
        forall|k: int|
            0 <= k < old(rgba)@.len() ==> final(rgba)@[k] == byte_after(
                old(rgba)@,
                k,
                k / 4 == pixel_pos(width, x as int, y as int),
                color,
            ),
{
    assert(y * width <= y * width + x) by (nonlinear_arith);
    let index = ((y * width + x) * 4) as usize;
    if rgba.len() >= 4 && index <= rgba.len() - 4 {
        rgba[index] = color[0];
        rgba[index + 1] = color[1];
        rgba[index + 2] = color[2];
        rgba[index + 3] = color[3];
    }
    proof {
        let p = pixel_pos(width, x as int, y as int);
        assert(index == p * 4);
        assert forall|k: int| 0 <= k < old(rgba)@.len() implies rgba@[k] == byte_after(
            old(rgba)@,
            k,
            k / 4 == p,
            color,
        ) by {
            if k / 4 == p {
                assert(p * 4 <= k < p * 4 + 4);
            } else {
                assert(k < p * 4 || k >= p * 4 + 4);
            }
        }
    }
}

/// A pixel of the rectangle's last row, or of the rows above.
proof fn lemma_rect_rows(width: u32, x: int, y: int, w: int, h: int, p: int)
    requires
        h >= 0,
    ensures
        in_rect(width, x, y, w, h + 1, p) <==> (in_rect(width, x, y, w, h, p) || in_rect(
            width,
            x,
            y + h,
            w,
            1,
            p,
        )),
{
    if in_rect(width, x, y, w, h + 1, p) {
        let (px, py) = choose|px: int, py: int|
            x <= px < x + w && y <= py < y + h + 1 && #[trigger] pixel_pos(width, px, py) == p;
        if py < y + h {
            assert(x <= px < x + w && y <= py < y + h && pixel_pos(width, px, py) == p);
        } else {
            assert(x <= px < x + w && y + h <= py < y + h + 1 && pixel_pos(width, px, py) == p);
        }
    }
    if in_rect(width, x, y, w, h, p) {
        let (px, py) = choose|px: int, py: int|
            x <= px < x + w && y <= py < y + h && #[trigger] pixel_pos(width, px, py) == p;
        assert(x <= px < x + w && y <= py < y + h + 1 && pixel_pos(width, px, py) == p);
    }
    if in_rect(width, x, y + h, w, 1, p) {
        let (px, py) = choose|px: int, py: int|
            x <= px < x + w && y + h <= py < y + h + 1 && #[trigger] pixel_pos(width, px, py) == p;
        assert(x <= px < x + w && y <= py < y + h + 1 && pixel_pos(width, px, py) == p);
    }
}

/// A pixel of a row segment is its last pixel or one before it.
proof fn lemma_rect_cols(width: u32, x: int, y: int, w: int, p: int)
    requires
        w >= 0,
    ensures
        in_rect(width, x, y, w + 1, 1, p) <==> (in_rect(width, x, y, w, 1, p) || p == pixel_pos(
            width,
            x + w,
            y,
        )),
{
    if in_rect(width, x, y, w + 1, 1, p) {
        let (px, py) = choose|px: int, py: int|
            x <= px < x + w + 1 && y <= py < y + 1 && #[trigger] pixel_pos(width, px, py) == p;
        if px < x + w {
            assert(x <= px < x + w && y <= py < y + 1 && pixel_pos(width, px, py) == p);
        } else {
            assert(py == y && px == x + w);
        }
    }
    if in_rect(width, x, y, w, 1, p) {
        let (px, py) = choose|px: int, py: int|
            x <= px < x + w && y <= py < y + 1 && #[trigger] pixel_pos(width, px, py) == p;
        assert(x <= px < x + w + 1 && y <= py < y + 1 && pixel_pos(width, px, py) == p);
    }
    if p == pixel_pos(width, x + w, y) {
        assert(x <= x + w < x + w + 1 && y <= y < y + 1 && pixel_pos(width, x + w, y) == p);
    }
}

/// Pixel numbers grow with the row and, within a row, with the column.
proof fn lemma_pixel_pos_mono(width: u32, px: int, py: int, qx: int, qy: int)
    requires
        0 <= px <= qx,
        0 <= py <= qy,
    ensures
        pixel_pos(width, px, py) <= pixel_pos(width, qx, qy),
{
    assert(py * width <= qy * width) by (nonlinear_arith)
        requires
            0 <= py <= qy,
            width >= 0,
    ;
}

/// Fills the `w` by `h` rectangle at column `x`, row `y` with `color`; pixels
/// outside the buffer are skipped.
pub fn fill_rect(rgba: &mut Vec<u8>, width: u32, x: u32, y: u32, w: u32, h: u32, color: [u8; 4])
    requires
        x + w <= u32::MAX,
        y + h <= u32::MAX,
        w > 0 && h > 0 ==> ((y + h - 1) * width + (x + w - 1)) * 4 <= u32::MAX,
    ensures
        final(rgba)@.len() == old(rgba)@.len(),
        forall|k: int|
            0 <= k < old(rgba)@.len() ==> final(rgba)@[k] == byte_after(
                old(rgba)@,
                k,
                in_rect(width, x as int, y as int, w as int, h as int, k / 4),
                color,
            ),
{
    let ghost start = rgba@;
    let mut py = y;
    while py < y + h
        invariant
            y <= py <= y + h,
            y + h <= u32::MAX,
            x + w <= u32::MAX,
            w > 0 && h > 0 ==> ((y + h - 1) * width + (x + w - 1)) * 4 <= u32::MAX,
            rgba@.len() == start.len(),
            start == old(rgba)@,
            forall|k: int|
                0 <= k < start.len() ==> rgba@[k] == byte_after(
                    start,
                    k,
                    in_rect(width, x as int, y as int, w as int, py - y, k / 4),
                    color,
                ),
        decreases y + h - py,
    {
        let mut px = x;
        while px < x + w
            invariant
                y <= py < y + h,
                x <= px <= x + w,
                y + h <= u32::MAX,
                x + w <= u32::MAX,
                w > 0 && h > 0 ==> ((y + h - 1) * width + (x + w - 1)) * 4 <= u32::MAX,
                rgba@.len() == start.len(),
                forall|k: int|
                    0 <= k < start.len() ==> rgba@[k] == byte_after(
                        start,
                        k,
                        in_rect(width, x as int, y as int, w as int, py - y, k / 4) || in_rect(
                            width,
                            x as int,
                            py as int,
                            px - x,
                            1,
                            k / 4,
                        ),
                        color,
                    ),
            decreases x + w - px,
        {
            proof {
                lemma_pixel_pos_mono(width, px as int, py as int, (x + w - 1) as int, (y + h - 1) as int);
            }
            let ghost pre = rgba@;
            put_pixel(rgba, width, px, py, color);
            proof {
                assert forall|k: int| 0 <= k < start.len() implies rgba@[k] == byte_after(
                    start,
                    k,
                    in_rect(width, x as int, y as int, w as int, py - y, k / 4) || in_rect(
                        width,
                        x as int,
                        py as int,
                        px + 1 - x,
                        1,
                        k / 4,
                    ),
                    color,
                ) by {
                    lemma_rect_cols(width, x as int, py as int, px - x, k / 4);
                }
            }
            px = px + 1;
        }
        proof {
            assert forall|k: int| 0 <= k < start.len() implies rgba@[k] == byte_after(
                start,
                k,
                in_rect(width, x as int, y as int, w as int, py + 1 - y, k / 4),
                color,
            ) by {
                lemma_rect_rows(width, x as int, y as int, w as int, py - y, k / 4);
            }
        }
        py = py + 1;
    }
}

/// How far a coordinate lies inside the rounded corner band of an edge of
/// length `len` starting at `start` (0 away from the corners).
pub open spec fn corner_depth(pos: int, start: int, len: int, radius: int) -> int {
    if pos < start + radius {
        start + radius - pos
    } else if pos >= start + len - radius {
        pos - (start + len - radius - 1)
    } else {
        0
    }
}

/// A product limited to the largest `u32`.
pub open spec fn sat_u32(v: int) -> int {
    if v > u32::MAX {
        u32::MAX as int
    } else {
        v
    }
}

/// The pixel at column `px`, row `py` of the rectangle is kept by the rounding of
/// its corners.
pub open spec fn round_keeps(px: int, py: int, x: int, y: int, w: int, h: int, radius: int) -> bool {
    let dx = corner_depth(px, x, w, radius);
    let dy = corner_depth(py, y, h, radius);
    dx == 0 || dy == 0 || sat_u32(dx * dx) + sat_u32(dy * dy) <= sat_u32(radius * radius)
}

/// Pixel number `p` lies in the rectangle with rounded corners.
pub open spec fn in_round_rect(
    width: u32,
    x: int,
    y: int,
    w: int,
    h: int,
    radius: int,
    rows: int,
    cols: int,
    p: int,
) -> bool {
    exists|px: int, py: int|
        x <= px < x + w && y <= py < y + h && (py < y + rows || (py == y + rows && px < x + cols))
            && round_keeps(px, py, x, y, w, h, radius) && #[trigger] pixel_pos(width, px, py) == p
}

/// The part of a rounded rectangle up to a pixel grows by that pixel.
proof fn lemma_round_step(
    width: u32,
    x: int,
    y: int,
    w: int,
    h: int,
    radius: int,
    rows: int,
    cols: int,
    p: int,
)
    requires
        0 <= rows < h,
        0 <= cols < w,
    ensures
        in_round_rect(width, x, y, w, h, radius, rows, cols + 1, p) <==> (in_round_rect(
            width,
            x,
            y,
            w,
            h,
            radius,
            rows,
            cols,
            p,
        ) || (round_keeps(x + cols, y + rows, x, y, w, h, radius) && p == pixel_pos(
            width,
            x + cols,
            y + rows,
        ))),
{
    if in_round_rect(width, x, y, w, h, radius, rows, cols + 1, p) {
        let (px, py) = choose|px: int, py: int|
            x <= px < x + w && y <= py < y + h && (py < y + rows || (py == y + rows && px < x + cols
                + 1)) && round_keeps(px, py, x, y, w, h, radius) && #[trigger] pixel_pos(width, px, py)
                == p;
        if py < y + rows || px < x + cols {
            assert(pixel_pos(width, px, py) == p);
        }
    }
    if in_round_rect(width, x, y, w, h, radius, rows, cols, p) {
        let (px, py) = choose|px: int, py: int|
            x <= px < x + w && y <= py < y + h && (py < y + rows || (py == y + rows && px < x + cols))
                && round_keeps(px, py, x, y, w, h, radius) && #[trigger] pixel_pos(width, px, py) == p;
        assert(pixel_pos(width, px, py) == p);
    }
    if round_keeps(x + cols, y + rows, x, y, w, h, radius) && p == pixel_pos(width, x + cols, y + rows) {
        assert(pixel_pos(width, x + cols, y + rows) == p);
    }
}

/// A finished row is the start of the next one.
proof fn lemma_round_row(width: u32, x: int, y: int, w: int, h: int, radius: int, rows: int, p: int)
    requires
        0 <= rows < h,
        w >= 0,
    ensures
        in_round_rect(width, x, y, w, h, radius, rows, w, p) <==> in_round_rect(
            width,
            x,
            y,
            w,
            h,
            radius,
            rows + 1,
            0,
            p,
        ),
{
    if in_round_rect(width, x, y, w, h, radius, rows, w, p) {
        let (px, py) = choose|px: int, py: int|
            x <= px < x + w && y <= py < y + h && (py < y + rows || (py == y + rows && px < x + w))
                && round_keeps(px, py, x, y, w, h, radius) && #[trigger] pixel_pos(width, px, py) == p;
        assert(pixel_pos(width, px, py) == p);
    }
    if in_round_rect(width, x, y, w, h, radius, rows + 1, 0, p) {
        let (px, py) = choose|px: int, py: int|
            x <= px < x + w && y <= py < y + h && (py < y + rows + 1 || (py == y + rows + 1 && px
                < x)) && round_keeps(px, py, x, y, w, h, radius) && #[trigger] pixel_pos(width, px, py)
                == p;
        assert(pixel_pos(width, px, py) == p);
    }
}

/// The squared depth, limited to the largest `u32`.
fn sat_square(d: u32) -> (r: u64)
    ensures
        r == sat_u32(d * d),
{
    let d64 = d as u64;
    assert(d64 * d64 <= 0xffff_ffff * 0xffff_ffffu64) by (nonlinear_arith)
        requires
            d64 <= 0xffff_ffff,
    ;
    let sq = d64 * d64;
    if sq > 0xffff_ffff {
        0xffff_ffff
    } else {
        sq
    }
}

/// Fills the `w` by `h` rectangle at column `x`, row `y` with `color`, leaving
/// out the corners beyond `radius`; pixels outside the buffer are skipped.
pub fn fill_round_rect(
    rgba: &mut Vec<u8>,
    width: u32,
    x: u32,
    y: u32,
    w: u32,
    h: u32,
    radius: u32,
    color: [u8; 4],
)
    requires
        x + w <= u32::MAX,
        y + h <= u32::MAX,
        w > 0 && h > 0 ==> x + radius <= u32::MAX && y + radius <= u32::MAX,
        w > 0 && h > 0 ==> ((y + h - 1) * width + (x + w - 1)) * 4 <= u32::MAX,
    ensures
        final(rgba)@.len() == old(rgba)@.len(),
        forall|k: int|
            0 <= k < old(rgba)@.len() ==> final(rgba)@[k] == byte_after(
                old(rgba)@,
                k,
                in_round_rect(width, x as int, y as int, w as int, h as int, radius as int, h as int, 0, k / 4),
                color,
            ),
{
    let ghost start = rgba@;
    let mut py = y;
    while py < y + h
        invariant
            y <= py <= y + h,
            y + h <= u32::MAX,
            x + w <= u32::MAX,
            w > 0 && h > 0 ==> x + radius <= u32::MAX && y + radius <= u32::MAX,
            w > 0 && h > 0 ==> ((y + h - 1) * width + (x + w - 1)) * 4 <= u32::MAX,
            rgba@.len() == start.len(),
            start == old(rgba)@,
            forall|k: int|
                0 <= k < start.len() ==> rgba@[k] == byte_after(
                    start,
                    k,
                    in_round_rect(width, x as int, y as int, w as int, h as int, radius as int, py - y, 0, k / 4),
                    color,
                ),
        decreases y + h - py,
    {
        let mut px = x;
        while px < x + w
            invariant
                y <= py < y + h,
                x <= px <= x + w,
                y + h <= u32::MAX,
                x + w <= u32::MAX,
                w > 0 && h > 0 ==> x + radius <= u32::MAX && y + radius <= u32::MAX,
                w > 0 && h > 0 ==> ((y + h - 1) * width + (x + w - 1)) * 4 <= u32::MAX,
                rgba@.len() == start.len(),
                forall|k: int|
                    0 <= k < start.len() ==> rgba@[k] == byte_after(
                        start,
                        k,
                        in_round_rect(
                            width,
                            x as int,
                            y as int,
                            w as int,
                            h as int,
                            radius as int,
                            py - y,
                            px - x,
                            k / 4,
                        ),
                        color,
                    ),
            decreases x + w - px,
        {
            let dx: u32 = if px < x + radius {
                x + radius - px
            } else if px >= x + w - radius {
                px - (x + w - radius - 1)
            } else {
                0
            };
            let dy: u32 = if py < y + radius {
                y + radius - py
            } else if py >= y + h - radius {
                py - (y + h - radius - 1)
            } else {
                0
            };
            let keep = dx == 0 || dy == 0 || sat_square(dx) + sat_square(dy) <= sat_square(radius);
            assert(keep == round_keeps(px as int, py as int, x as int, y as int, w as int, h as int, radius as int));
            let ghost pre = rgba@;
            if keep {
                proof {
                    lemma_pixel_pos_mono(width, px as int, py as int, (x + w - 1) as int, (y + h - 1) as int);
                }
                put_pixel(rgba, width, px, py, color);
            }
            proof {
                assert forall|k: int| 0 <= k < start.len() implies rgba@[k] == byte_after(
                    start,
                    k,
                    in_round_rect(
                        width,
                        x as int,
                        y as int,
                        w as int,
                        h as int,
                        radius as int,
                        py - y,
                        px + 1 - x,
                        k / 4,
                    ),
                    color,
                ) by {
                    lemma_round_step(
                        width,
                        x as int,
                        y as int,
                        w as int,
                        h as int,
                        radius as int,
                        py - y,
                        px - x,
                        k / 4,
                    );
                }
            }
            px = px + 1;
        }
        proof {
            assert forall|k: int| 0 <= k < start.len() implies rgba@[k] == byte_after(
                start,
                k,
                in_round_rect(width, x as int, y as int, w as int, h as int, radius as int, py + 1 - y, 0, k / 4),
                color,
            ) by {
                lemma_round_row(width, x as int, y as int, w as int, h as int, radius as int, py - y, k / 4);
            }
        }
        py = py + 1;
    }
}

/// A `u32` read as an `i32`, as `as` converts it.
pub open spec fn as_i32(v: u32) -> int {
    if v <= i32::MAX {
        v as int
    } else {
        v - 0x1_0000_0000
    }
}

fn to_i32(v: u32) -> (r: i32)
    ensures
        r == as_i32(v),
{
    if v <= 0x7fff_ffff {
        v as i32
    } else {
        (v as i64 - 0x1_0000_0000) as i32
    }
}

/// The absolute value.
pub open spec fn abs(v: int) -> int {
    if v < 0 {
        -v
    } else {
        v
    }
}

/// The points Bresenham's algorithm visits from `(x, y)` with error term `err`
/// towards `(x1, y1)`, at most `fuel` of them.
pub open spec fn line_points(
    x: int,
    y: int,
    err: int,
    x1: int,
    y1: int,
    dx: int,
    dy: int,
    sx: int,
    sy: int,
    fuel: nat,
) -> Seq<(int, int)>
    decreases fuel,
{
    if fuel == 0 {
        Seq::empty()
    } else if x == x1 && y == y1 {
        seq![(x, y)]
    } else {
        let e2 = err * 2;
        let err1 = if e2 >= dy {
            err + dy
        } else {
            err
        };
        let nx = if e2 >= dy {
            x + sx
        } else {
            x
        };
        let err2 = if e2 <= dx {
            err1 + dx
        } else {
            err1
        };
        let ny = if e2 <= dx {
            y + sy
        } else {
            y
        };
        seq![(x, y)] + line_points(nx, ny, err2, x1, y1, dx, dy, sx, sy, (fuel - 1) as nat)
    }
}

/// The points of the line from `(x0, y0)` to `(x1, y1)` by Bresenham's algorithm,
/// both ends included.
pub open spec fn bresenham(x0: int, y0: int, x1: int, y1: int) -> Seq<(int, int)> {
    let dx = abs(x1 - x0);
    let dy = -abs(y1 - y0);
    let sx = if x0 < x1 {
        1
    } else {
        -1
    };
    let sy = if y0 < y1 {
        1
    } else {
        -1
    };
    line_points(x0, y0, dx + dy, x1, y1, dx, dy, sx, sy, (dx - dy + 1) as nat)
}

/// Pixel number `p` is a point of the list with no negative coordinate.
pub open spec fn covers(width: u32, pts: Seq<(int, int)>, p: int) -> bool {
    exists|j: int|
        0 <= j < pts.len() && pts[j].0 >= 0 && pts[j].1 >= 0 && #[trigger] pixel_pos(
            width,
            pts[j].0,
            pts[j].1,
        ) == p
}

proof fn lemma_covers_push(width: u32, pts: Seq<(int, int)>, pt: (int, int), p: int)
    ensures
        covers(width, pts.push(pt), p) <==> (covers(width, pts, p) || (pt.0 >= 0 && pt.1 >= 0
            && pixel_pos(width, pt.0, pt.1) == p)),
{
    let q = pts.push(pt);
    if covers(width, q, p) {
        let j = choose|j: int|
            0 <= j < q.len() && q[j].0 >= 0 && q[j].1 >= 0 && #[trigger] pixel_pos(width, q[j].0, q[j].1)
                == p;
        if j < pts.len() {
            assert(q[j] == pts[j]);
            assert(pixel_pos(width, pts[j].0, pts[j].1) == p);
        }
    }
    if covers(width, pts, p) {
        let j = choose|j: int|
            0 <= j < pts.len() && pts[j].0 >= 0 && pts[j].1 >= 0 && #[trigger] pixel_pos(
                width,
                pts[j].0,
                pts[j].1,
            ) == p;
        assert(q[j] == pts[j]);
        assert(pixel_pos(width, q[j].0, q[j].1) == p);
    }
    if pt.0 >= 0 && pt.1 >= 0 && pixel_pos(width, pt.0, pt.1) == p {
        assert(q[pts.len() as int] == pt);
        assert(pixel_pos(width, q[pts.len() as int].0, q[pts.len() as int].1) == p);
    }
}

/// Draws the line from `(x0, y0)` to `(x1, y1)` by Bresenham's algorithm, with
/// the coordinates read as `i32`; points with a negative coordinate and pixels
/// outside the buffer are skipped.
pub fn draw_line(rgba: &mut Vec<u8>, width: u32, x0: u32, y0: u32, x1: u32, y1: u32, color: [u8; 4])
    requires
        -i32::MAX <= as_i32(x1) - as_i32(x0) <= i32::MAX,
        -i32::MAX <= as_i32(y1) - as_i32(y0) <= i32::MAX,
        ({
            let mx = if as_i32(x0) > as_i32(x1) {
                as_i32(x0)
            } else {
                as_i32(x1)
            };
            let my = if as_i32(y0) > as_i32(y1) {
                as_i32(y0)
            } else {
                as_i32(y1)
            };
            mx >= 0 && my >= 0 ==> (my * width + mx) * 4 <= u32::MAX
        }),
    ensures
        final(rgba)@.len() == old(rgba)@.len(),
        forall|k: int|
            0 <= k < old(rgba)@.len() ==> final(rgba)@[k] == byte_after(
                old(rgba)@,
                k,
                covers(
                    width,
                    bresenham(as_i32(x0), as_i32(y0), as_i32(x1), as_i32(y1)),
                    k / 4,
                ),
                color,
            ),
{
    let mut x: i32 = to_i32(x0);
    let mut y: i32 = to_i32(y0);
    let ex: i32 = to_i32(x1);
    let ey: i32 = to_i32(y1);
    let ghost xs = x as int;
    let ghost ys = y as int;
    let ghost mx = if xs > ex { xs } else { ex as int };
    let ghost my = if ys > ey { ys } else { ey as int };
    let ddx: i32 = ex - x;
    let ddy: i32 = ey - y;
    let dx: i32 = if ddx < 0 { -ddx } else { ddx };
    let dy: i32 = -(if ddy < 0 { -ddy } else { ddy });
    let sx: i32 = if x < ex { 1 } else { -1 };
    let sy: i32 = if y < ey { 1 } else { -1 };
    let mut err: i64 = dx as i64 + dy as i64;
    let ghost a = dx as int;
    let ghost b = -dy as int;
    let ghost pts = bresenham(xs, ys, ex as int, ey as int);
    let ghost mut done: Seq<(int, int)> = Seq::empty();
    let ghost mut fuel: nat = (a + b + 1) as nat;
    let ghost start = rgba@;
    assert(a * b == b * a) by (nonlinear_arith);
    loop
        invariant_except_break
            pts == done + line_points(
                x as int,
                y as int,
                err as int,
                ex as int,
                ey as int,
                dx as int,
                dy as int,
                sx as int,
                sy as int,
                fuel,
            ),
            abs(ex - x) + abs(ey - y) + 1 <= fuel,
            err == a - b - a * abs(ey - y) + b * abs(ex - x),
            -3 * b <= 2 * err <= 3 * a,
            sx == 1 ==> xs <= x <= ex,
            sx == -1 ==> ex <= x <= xs,
            sy == 1 ==> ys <= y <= ey,
            sy == -1 ==> ey <= y <= ys,
            forall|k: int|
                0 <= k < start.len() ==> rgba@[k] == byte_after(start, k, covers(width, done, k / 4), color),
        invariant
            a == abs(ex - xs),
            b == abs(ey - ys),
            dx == a,
            dy == -b,
            0 <= a <= i32::MAX,
            0 <= b <= i32::MAX,
            sx == (if xs < ex { 1int } else { -1int }),
            sy == (if ys < ey { 1int } else { -1int }),
            mx == (if xs > ex { xs } else { ex as int }),
            my == (if ys > ey { ys } else { ey as int }),
            mx >= 0 && my >= 0 ==> (my * width + mx) * 4 <= u32::MAX,
            rgba@.len() == start.len(),
            start == old(rgba)@,
            pts == bresenham(xs, ys, ex as int, ey as int),
        ensures
            forall|k: int|
                0 <= k < start.len() ==> rgba@[k] == byte_after(start, k, covers(width, pts, k / 4), color),
        decreases fuel,
    {
        let ghost pre = rgba@;
        if x >= 0 && y >= 0 {
            proof {
                lemma_pixel_pos_mono(width, x as int, y as int, mx, my);
            }
            put_pixel(rgba, width, x as u32, y as u32, color);
        }
        proof {
            assert forall|k: int| 0 <= k < start.len() implies rgba@[k] == byte_after(
                start,
                k,
                covers(width, done.push((x as int, y as int)), k / 4),
                color,
            ) by {
                lemma_covers_push(width, done, (x as int, y as int), k / 4);
            }
            assert(seq![(x as int, y as int)] + line_points(
                x as int, y as int, err as int, ex as int, ey as int, dx as int, dy as int, sx as int,
                sy as int, (fuel - 1) as nat,
            ) =~= seq![(x as int, y as int)].add(line_points(
                x as int, y as int, err as int, ex as int, ey as int, dx as int, dy as int, sx as int,
                sy as int, (fuel - 1) as nat,
            )));
            done = done.push((x as int, y as int));
        }
        if x == ex && y == ey {
            assert(pts =~= done);
            break;
        }
        let ghost ra = abs(ex - x);
        let ghost rb = abs(ey - y);
        let ghost old_x = x as int;
        let ghost old_y = y as int;
        let ghost old_err = err as int;
        let e2: i64 = err * 2;
        proof {
            assert(ra <= a && rb <= b);
            if ra == 0 {
                assert(b * ra == 0) by (nonlinear_arith)
                    requires
                        ra == 0,
                ;
                assert(rb >= 1);
                assert(a * rb >= a) by (nonlinear_arith)
                    requires
                        rb >= 1,
                        a >= 0,
                ;
            }
            if rb == 0 {
                assert(a * rb == 0) by (nonlinear_arith)
                    requires
                        rb == 0,
                ;
                assert(ra >= 1);
                assert(b * ra >= b) by (nonlinear_arith)
                    requires
                        ra >= 1,
                        b >= 0,
                ;
            }
            assert(2 * err >= -b ==> ra > 0);
            assert(2 * err <= a ==> rb > 0);
        }
        if e2 >= dy as i64 {
            err = err + dy as i64;
            x = x + sx;
        }
        if e2 <= dx as i64 {
            err = err + dx as i64;
            y = y + sy;
        }
        proof {
            let nra = abs(ex - x);
            let nrb = abs(ey - y);
            assert(b * ra - b == b * (ra - 1)) by (nonlinear_arith);
            assert(a * rb - a == a * (rb - 1)) by (nonlinear_arith);
            assert(line_points(
                old_x, old_y, old_err, ex as int, ey as int, dx as int, dy as int, sx as int, sy as int,
                fuel,
            ) == seq![(old_x, old_y)] + line_points(
                x as int, y as int, err as int, ex as int, ey as int, dx as int, dy as int, sx as int,
                sy as int, (fuel - 1) as nat,
            ));
            assert(pts =~= done + line_points(
                x as int, y as int, err as int, ex as int, ey as int, dx as int, dy as int, sx as int,
                sy as int, (fuel - 1) as nat,
            ));
            fuel = (fuel - 1) as nat;
        }
    }
}

/// The buffer after `fill_rect`.
pub open spec fn rect_painted(buf: Seq<u8>, width: u32, x: int, y: int, w: int, h: int, color: [u8; 4]) -> Seq<u8> {
    Seq::new(buf.len(), |k: int| byte_after(buf, k, in_rect(width, x, y, w, h, k / 4), color))
}

/// The buffer after `fill_round_rect`.
pub open spec fn round_painted(
    buf: Seq<u8>,
    width: u32,
    x: int,
    y: int,
    w: int,
    h: int,
    radius: int,
    color: [u8; 4],
) -> Seq<u8> {
    Seq::new(buf.len(), |k: int| byte_after(buf, k, in_round_rect(width, x, y, w, h, radius, h, 0, k / 4), color))
}

/// The buffer after `draw_line` between points with non-negative coordinates.
pub open spec fn line_painted(buf: Seq<u8>, width: u32, x0: int, y0: int, x1: int, y1: int, color: [u8; 4]) -> Seq<u8> {
    Seq::new(buf.len(), |k: int| byte_after(buf, k, covers(width, bresenham(x0, y0, x1, y1), k / 4), color))
}

/// The pixels of the application icon: a dark rounded tile with a grid, a few
/// painted cells and a pencil.
pub open spec fn icon_rgba() -> Seq<u8> {
    let b0 = Seq::new(16384, |k: int| 0u8);
    let b1 = rect_painted(b0, 64, 0, 0, 64, 64, [33, 37, 43, 255]);
    let b2 = round_painted(b1, 64, 5, 5, 54, 54, 10, [22, 26, 33, 255]);
    let b3 = line_painted(b2, 64, 14, 11, 14, 53, [58, 64, 76, 140]);
    let b4 = line_painted(b3, 64, 23, 11, 23, 53, [58, 64, 76, 140]);
    let b5 = line_painted(b4, 64, 32, 11, 32, 53, [58, 64, 76, 140]);
    let b6 = line_painted(b5, 64, 41, 11, 41, 53, [58, 64, 76, 140]);
    let b7 = line_painted(b6, 64, 50, 11, 50, 53, [58, 64, 76, 140]);
    let b8 = line_painted(b7, 64, 11, 14, 53, 14, [58, 64, 76, 140]);
    let b9 = line_painted(b8, 64, 11, 23, 53, 23, [58, 64, 76, 140]);
    let b10 = line_painted(b9, 64, 11, 32, 53, 32, [58, 64, 76, 140]);
    let b11 = line_painted(b10, 64, 11, 41, 53, 41, [58, 64, 76, 140]);
    let b12 = line_painted(b11, 64, 11, 50, 53, 50, [58, 64, 76, 140]);
    let b13 = round_painted(b12, 64, 18, 31, 9, 9, 2, [97, 175, 239, 255]);
    let b14 = round_painted(b13, 64, 27, 31, 9, 9, 2, [97, 175, 239, 255]);
    let b15 = round_painted(b14, 64, 36, 31, 9, 9, 2, [97, 175, 239, 255]);
    let b16 = round_painted(b15, 64, 36, 22, 9, 9, 2, [97, 175, 239, 255]);
    let b17 = round_painted(b16, 64, 27, 40, 9, 9, 2, [126, 171, 132, 255]);
    let b18 = rect_painted(b17, 64, 37, 14, 4, 16, [243, 152, 78, 255]);
    let b19 = rect_painted(b18, 64, 41, 10, 7, 8, [232, 104, 96, 255]);
    let b20 = rect_painted(b19, 64, 33, 18, 6, 6, [241, 243, 245, 255]);
    let b21 = line_painted(b20, 64, 36, 17, 46, 27, [243, 152, 78, 255]);
    let b22 = line_painted(b21, 64, 34, 19, 44, 29, [241, 243, 245, 255]);
    b22
}

/// The application icon, 64 by 64 pixels.
pub fn app_icon() -> (r: IconImage)
    ensures
        r.width == 64,
        r.height == 64,
        r.rgba@ == icon_rgba(),
{
    let width: u32 = 64;
    let height: u32 = 64;
    let mut rgba: Vec<u8> = vec![0u8; 16384];
    let ghost b0 = rgba@;
    assert(b0 =~= Seq::new(16384, |k: int| 0u8));
    fill_rect(&mut rgba, width, 0, 0, 64, 64, [33, 37, 43, 255]);
    assert(rgba@ =~= rect_painted(b0, 64, 0, 0, 64, 64, [33, 37, 43, 255]));
    let ghost b1 = rgba@;
    fill_round_rect(&mut rgba, width, 5, 5, 54, 54, 10, [22, 26, 33, 255]);
    assert(rgba@ =~= round_painted(b1, 64, 5, 5, 54, 54, 10, [22, 26, 33, 255]));
    let ghost b2 = rgba@;
    draw_line(&mut rgba, width, 14, 11, 14, 53, [58, 64, 76, 140]);
    assert(rgba@ =~= line_painted(b2, 64, 14, 11, 14, 53, [58, 64, 76, 140]));
    let ghost b3 = rgba@;
    draw_line(&mut rgba, width, 23, 11, 23, 53, [58, 64, 76, 140]);
    assert(rgba@ =~= line_painted(b3, 64, 23, 11, 23, 53, [58, 64, 76, 140]));
    let ghost b4 = rgba@;
    draw_line(&mut rgba, width, 32, 11, 32, 53, [58, 64, 76, 140]);
    assert(rgba@ =~= line_painted(b4, 64, 32, 11, 32, 53, [58, 64, 76, 140]));
    let ghost b5 = rgba@;
    draw_line(&mut rgba, width, 41, 11, 41, 53, [58, 64, 76, 140]);
    assert(rgba@ =~= line_painted(b5, 64, 41, 11, 41, 53, [58, 64, 76, 140]));
    let ghost b6 = rgba@;
    draw_line(&mut rgba, width, 50, 11, 50, 53, [58, 64, 76, 140]);
    assert(rgba@ =~= line_painted(b6, 64, 50, 11, 50, 53, [58, 64, 76, 140]));
    let ghost b7 = rgba@;
    draw_line(&mut rgba, width, 11, 14, 53, 14, [58, 64, 76, 140]);
    assert(rgba@ =~= line_painted(b7, 64, 11, 14, 53, 14, [58, 64, 76, 140]));
    let ghost b8 = rgba@;
    draw_line(&mut rgba, width, 11, 23, 53, 23, [58, 64, 76, 140]);
    assert(rgba@ =~= line_painted(b8, 64, 11, 23, 53, 23, [58, 64, 76, 140]));
    let ghost b9 = rgba@;
    draw_line(&mut rgba, width, 11, 32, 53, 32, [58, 64, 76, 140]);
    assert(rgba@ =~= line_painted(b9, 64, 11, 32, 53, 32, [58, 64, 76, 140]));
    let ghost b10 = rgba@;
    draw_line(&mut rgba, width, 11, 41, 53, 41, [58, 64, 76, 140]);
    assert(rgba@ =~= line_painted(b10, 64, 11, 41, 53, 41, [58, 64, 76, 140]));
    let ghost b11 = rgba@;
    draw_line(&mut rgba, width, 11, 50, 53, 50, [58, 64, 76, 140]);
    assert(rgba@ =~= line_painted(b11, 64, 11, 50, 53, 50, [58, 64, 76, 140]));
    let ghost b12 = rgba@;
    fill_round_rect(&mut rgba, width, 18, 31, 9, 9, 2, [97, 175, 239, 255]);
    assert(rgba@ =~= round_painted(b12, 64, 18, 31, 9, 9, 2, [97, 175, 239, 255]));
    let ghost b13 = rgba@;
    fill_round_rect(&mut rgba, width, 27, 31, 9, 9, 2, [97, 175, 239, 255]);
    assert(rgba@ =~= round_painted(b13, 64, 27, 31, 9, 9, 2, [97, 175, 239, 255]));
    let ghost b14 = rgba@;
    fill_round_rect(&mut rgba, width, 36, 31, 9, 9, 2, [97, 175, 239, 255]);
    assert(rgba@ =~= round_painted(b14, 64, 36, 31, 9, 9, 2, [97, 175, 239, 255]));
    let ghost b15 = rgba@;
    fill_round_rect(&mut rgba, width, 36, 22, 9, 9, 2, [97, 175, 239, 255]);
    assert(rgba@ =~= round_painted(b15, 64, 36, 22, 9, 9, 2, [97, 175, 239, 255]));
    let ghost b16 = rgba@;
    fill_round_rect(&mut rgba, width, 27, 40, 9, 9, 2, [126, 171, 132, 255]);
    assert(rgba@ =~= round_painted(b16, 64, 27, 40, 9, 9, 2, [126, 171, 132, 255]));
    let ghost b17 = rgba@;
    fill_rect(&mut rgba, width, 37, 14, 4, 16, [243, 152, 78, 255]);
    assert(rgba@ =~= rect_painted(b17, 64, 37, 14, 4, 16, [243, 152, 78, 255]));
    let ghost b18 = rgba@;
    fill_rect(&mut rgba, width, 41, 10, 7, 8, [232, 104, 96, 255]);
    assert(rgba@ =~= rect_painted(b18, 64, 41, 10, 7, 8, [232, 104, 96, 255]));
    let ghost b19 = rgba@;
    fill_rect(&mut rgba, width, 33, 18, 6, 6, [241, 243, 245, 255]);
    assert(rgba@ =~= rect_painted(b19, 64, 33, 18, 6, 6, [241, 243, 245, 255]));
    let ghost b20 = rgba@;
    draw_line(&mut rgba, width, 36, 17, 46, 27, [243, 152, 78, 255]);
    assert(rgba@ =~= line_painted(b20, 64, 36, 17, 46, 27, [243, 152, 78, 255]));
    let ghost b21 = rgba@;
    draw_line(&mut rgba, width, 34, 19, 44, 29, [241, 243, 245, 255]);
    assert(rgba@ =~= line_painted(b21, 64, 34, 19, 44, 29, [241, 243, 245, 255]));
    let ghost b22 = rgba@;
    IconImage { rgba, width, height }
}

/// A rounded rectangle is part of its rectangle.
proof fn lemma_round_in_rect(width: u32, x: int, y: int, w: int, h: int, radius: int, p: int)
    requires
        in_round_rect(width, x, y, w, h, radius, h, 0, p),
    ensures
        in_rect(width, x, y, w, h, p),
{
    let (px, py) = choose|px: int, py: int|
        x <= px < x + w && y <= py < y + h && (py < y + h || (py == y + h && px < x + 0))
            && round_keeps(px, py, x, y, w, h, radius) && #[trigger] pixel_pos(width, px, py) == p;
    assert(x <= px < x + w && y <= py < y + h && pixel_pos(width, px, py) == p);
}

/// With radius 0 no corner is cut off.
proof fn lemma_rect_in_round(width: u32, x: int, y: int, w: int, h: int, p: int)
    requires
        in_rect(width, x, y, w, h, p),
    ensures
        in_round_rect(width, x, y, w, h, 0, h, 0, p),
{
    let (px, py) = choose|px: int, py: int|
        x <= px < x + w && y <= py < y + h && #[trigger] pixel_pos(width, px, py) == p;
    assert(corner_depth(px, x, w, 0) == 0);
    assert(round_keeps(px, py, x, y, w, h, 0));
    assert(x <= px < x + w && y <= py < y + h && (py < y + h || (py == y + h && px < x + 0))
        && round_keeps(px, py, x, y, w, h, 0) && pixel_pos(width, px, py) == p);
}

/// The rounded fill writes only what the plain fill of the same rectangle writes,
/// and with radius 0 it is the plain fill.
pub proof fn lemma_round_fill_within_rect_fill(
    buf: Seq<u8>,
    width: u32,
    x: int,
    y: int,
    w: int,
    h: int,
    radius: int,
    color: [u8; 4],
)
    ensures
        forall|j: int|
            0 <= j < buf.len() && #[trigger] round_painted(buf, width, x, y, w, h, radius, color)[j]
                != buf[j] ==> round_painted(buf, width, x, y, w, h, radius, color)[j]
                == rect_painted(buf, width, x, y, w, h, color)[j],
        radius == 0 ==> round_painted(buf, width, x, y, w, h, radius, color) == rect_painted(
            buf,
            width,
            x,
            y,
            w,
            h,
            color,
        ),
{
    let rd = round_painted(buf, width, x, y, w, h, radius, color);
    let rc = rect_painted(buf, width, x, y, w, h, color);
    assert forall|j: int| 0 <= j < buf.len() && #[trigger] rd[j] != buf[j] implies rd[j] == rc[j] by {
        if in_round_rect(width, x, y, w, h, radius, h, 0, j / 4) {
            lemma_round_in_rect(width, x, y, w, h, radius, j / 4);
        }
    }
    if radius == 0 {
        assert forall|j: int| 0 <= j < buf.len() implies rd[j] == rc[j] by {
            if in_round_rect(width, x, y, w, h, radius, h, 0, j / 4) {
                lemma_round_in_rect(width, x, y, w, h, radius, j / 4);
            }
            if in_rect(width, x, y, w, h, j / 4) {
                lemma_rect_in_round(width, x, y, w, h, j / 4);
            }
        }
        assert(rd =~= rc);
    }
}

/// One step of a line: to a neighbouring point, at most one away in each
/// coordinate and not staying in place.
pub open spec fn line_step(p: (int, int), q: (int, int)) -> bool {
    &&& abs(q.0 - p.0) <= 1
    &&& abs(q.1 - p.1) <= 1
    &&& p != q
}

/// The point lies in the box spanned by `(x0, y0)` and `(x1, y1)`.
pub open spec fn in_line_box(p: (int, int), x0: int, y0: int, x1: int, y1: int) -> bool {
    &&& (if x0 <= x1 { x0 <= p.0 <= x1 } else { x1 <= p.0 <= x0 })
    &&& (if y0 <= y1 { y0 <= p.1 <= y1 } else { y1 <= p.1 <= y0 })
}

/// A step from `p` to `q` comes no farther from `(x1, y1)` in either coordinate,
/// and nearer in at least one.
pub open spec fn step_towards(p: (int, int), q: (int, int), x1: int, y1: int) -> bool {
    &&& abs(x1 - q.0) <= abs(x1 - p.0)
    &&& abs(y1 - q.1) <= abs(y1 - p.1)
    &&& abs(x1 - q.0) + abs(y1 - q.1) < abs(x1 - p.0) + abs(y1 - p.1)
}

/// The path a run of Bresenham's algorithm takes: it starts where it is, ends at
/// the target, moves by single steps towards it and stays in the line's box.
proof fn lemma_line_points_path(
    x0: int,
    y0: int,
    x: int,
    y: int,
    err: int,
    x1: int,
    y1: int,
    a: int,
    b: int,
    sx: int,
    sy: int,
    fuel: nat,
)
    requires
        a >= 0,
        b >= 0,
        sx == 1 || sx == -1,
        sy == 1 || sy == -1,
        sx == 1 ==> x <= x1,
        sx == -1 ==> x1 <= x,
        sy == 1 ==> y <= y1,
        sy == -1 ==> y1 <= y,
        sx == 1 ==> x0 <= x,
        sx == -1 ==> x <= x0,
        sy == 1 ==> y0 <= y,
        sy == -1 ==> y <= y0,
        sx == 1 <==> x0 < x1,
        sy == 1 <==> y0 < y1,
        abs(x1 - x) <= a,
        abs(y1 - y) <= b,
        err == a - b - a * abs(y1 - y) + b * abs(x1 - x),
        -3 * b <= 2 * err <= 3 * a,
        abs(x1 - x) + abs(y1 - y) + 1 <= fuel,
    ensures
        line_points(x, y, err, x1, y1, a, -b, sx, sy, fuel).len() >= 1,
        line_points(x, y, err, x1, y1, a, -b, sx, sy, fuel)[0] == (x, y),
        line_points(x, y, err, x1, y1, a, -b, sx, sy, fuel).last() == (x1, y1),
        forall|i: int|
            0 <= i < line_points(x, y, err, x1, y1, a, -b, sx, sy, fuel).len() - 1 ==> line_step(
                #[trigger] line_points(x, y, err, x1, y1, a, -b, sx, sy, fuel)[i],
                line_points(x, y, err, x1, y1, a, -b, sx, sy, fuel)[i + 1],
            ) && step_towards(
                line_points(x, y, err, x1, y1, a, -b, sx, sy, fuel)[i],
                line_points(x, y, err, x1, y1, a, -b, sx, sy, fuel)[i + 1],
                x1,
                y1,
            ),
        forall|i: int|
            0 <= i < line_points(x, y, err, x1, y1, a, -b, sx, sy, fuel).len() ==> in_line_box(
                #[trigger] line_points(x, y, err, x1, y1, a, -b, sx, sy, fuel)[i],
                x0,
                y0,
                x1,
                y1,
            ),
    decreases fuel,
{
    if !(x == x1 && y == y1) {
        let ra = abs(x1 - x);
        let rb = abs(y1 - y);
        if ra == 0 {
            assert(b * ra == 0) by (nonlinear_arith)
                requires
                    ra == 0,
            ;
            assert(rb >= 1);
            assert(a * rb >= a) by (nonlinear_arith)
                requires
                    rb >= 1,
                    a >= 0,
            ;
        }
        if rb == 0 {
            assert(a * rb == 0) by (nonlinear_arith)
                requires
                    rb == 0,
            ;
            assert(ra >= 1);
            assert(b * ra >= b) by (nonlinear_arith)
                requires
                    ra >= 1,
                    b >= 0,
            ;
        }
        assert(2 * err >= -b ==> ra > 0);
        assert(2 * err <= a ==> rb > 0);
        let e2 = err * 2;
        let dy = -b;
        let err1 = if e2 >= dy { err + dy } else { err };
        let nx = if e2 >= dy { x + sx } else { x };
        let err2 = if e2 <= a { err1 + a } else { err1 };
        let ny = if e2 <= a { y + sy } else { y };
        assert(b * ra - b == b * (ra - 1)) by (nonlinear_arith);
        assert(a * rb - a == a * (rb - 1)) by (nonlinear_arith);
        lemma_line_points_path(x0, y0, nx, ny, err2, x1, y1, a, b, sx, sy, (fuel - 1) as nat);
        let rest = line_points(nx, ny, err2, x1, y1, a, -b, sx, sy, (fuel - 1) as nat);
        let all = line_points(x, y, err, x1, y1, a, -b, sx, sy, fuel);
        assert(all == seq![(x, y)] + rest);
        assert forall|i: int| 0 <= i < all.len() - 1 implies line_step(#[trigger] all[i], all[i + 1])
            && step_towards(all[i], all[i + 1], x1, y1) by {
            if i > 0 {
                assert(all[i] == rest[i - 1]);
                assert(all[i + 1] == rest[i]);
            } else {
                assert(all[1] == rest[0]);
            }
        }
        assert forall|i: int| 0 <= i < all.len() implies in_line_box(#[trigger] all[i], x0, y0, x1, y1) by {
            if i > 0 {
                assert(all[i] == rest[i - 1]);
            }
        }
        assert(all.last() == rest.last());
    }
}

/// Bresenham's line from `(x0, y0)` to `(x1, y1)` starts at `(x0, y0)`, ends at
/// `(x1, y1)`, stays in the box the two ends span, and each step moves by at most
/// one in x and in y, by one in at least one of them, and towards the end.
pub proof fn lemma_bresenham_path(x0: int, y0: int, x1: int, y1: int)
    ensures
        bresenham(x0, y0, x1, y1).len() >= 1,
        bresenham(x0, y0, x1, y1)[0] == (x0, y0),
        bresenham(x0, y0, x1, y1).last() == (x1, y1),
        forall|i: int|
            0 <= i < bresenham(x0, y0, x1, y1).len() - 1 ==> line_step(
                #[trigger] bresenham(x0, y0, x1, y1)[i],
                bresenham(x0, y0, x1, y1)[i + 1],
            ) && step_towards(bresenham(x0, y0, x1, y1)[i], bresenham(x0, y0, x1, y1)[i + 1], x1, y1),
        forall|i: int|
            0 <= i < bresenham(x0, y0, x1, y1).len() ==> in_line_box(
                #[trigger] bresenham(x0, y0, x1, y1)[i],
                x0,
                y0,
                x1,
                y1,
            ),
{
    let a = abs(x1 - x0);
    let b = abs(y1 - y0);
    let sx = if x0 < x1 { 1int } else { -1int };
    let sy = if y0 < y1 { 1int } else { -1int };
    assert(a * b == b * a) by (nonlinear_arith);
    assert(-b == -abs(y1 - y0));
    lemma_line_points_path(x0, y0, x0, y0, a + -b, x1, y1, a, b, sx, sy, (a + b + 1) as nat);
}

} // verus!
