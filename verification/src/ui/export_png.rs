use vstd::prelude::*;
use vstd::arithmetic::div_mod::lemma_fundamental_div_mod;
use vstd::arithmetic::div_mod::lemma_fundamental_div_mod_converse;

verus! {

/// An RGBA picture of `width` by `height` pixels, four bytes per pixel, row by row:
/// the buffer that an exported view is drawn into.
pub struct Raster {
    pub width: u32,
    pub height: u32,
    pub rgba: Vec<u8>,
}

impl Raster {
    /// The buffer holds exactly the picture's pixels, and both sides fit in an `i32`.
    pub open spec fn wf(&self) -> bool {
        &&& self.rgba@.len() == self.width * self.height * 4
        &&& self.width <= i32::MAX
        &&& self.height <= i32::MAX
    }

    /// A picture of the given size in which every pixel is `color`.
    pub fn filled(width: u32, height: u32, color: [u8; 4]) -> (r: Raster)
        requires
            width <= i32::MAX,
            height <= i32::MAX,
            width * height * 4 <= usize::MAX,
        ensures
            r.wf(),
            r.width == width,
            r.height == height,
            forall|k: int| 0 <= k < r.rgba@.len() ==> #[trigger] r.rgba@[k] == color[k % 4],
    {
        assert(0 <= width * height) by (nonlinear_arith);
        let total: usize = (width as usize) * (height as usize) * 4;
        let mut rgba: Vec<u8> = Vec::new();
        let mut i: usize = 0;
        while i < total
            invariant
                i <= total,
                rgba@.len() == i,
                forall|k: int| 0 <= k < i ==> #[trigger] rgba@[k] == color[k % 4],
            decreases total - i,
        {
            rgba.push(color[i % 4]);
            i = i + 1;
        }
        Raster { width, height, rgba }
    }
}

/// Column of pixel number `p` in rows of `width` pixels.
pub open spec fn col_of(width: u32, p: int) -> int {
    p % (width as int)
}

/// Row of pixel number `p` in rows of `width` pixels.
pub open spec fn row_of(width: u32, p: int) -> int {
    p / (width as int)
}

/// Byte `k` of the picture after the pixels that `sel` names were set to `color`.
pub open spec fn byte_painted(
    old: Seq<u8>,
    width: u32,
    k: int,
    sel: spec_fn(int, int) -> bool,
    color: [u8; 4],
) -> u8 {
    if sel(col_of(width, k / 4), row_of(width, k / 4)) {
        color[k % 4]
    } else {
        old[k]
    }
}

/// `new` is `old` with exactly the pixels that `sel` names set to `color`.
pub open spec fn repainted(
    old: Seq<u8>,
    new: Seq<u8>,
    width: u32,
    sel: spec_fn(int, int) -> bool,
    color: [u8; 4],
) -> bool {
    &&& new.len() == old.len()
    &&& forall|k: int| 0 <= k < old.len() ==> #[trigger] new[k] == byte_painted(old, width, k, sel, color)
}

/// A pixel number lies at a column and row exactly when it is that row's pixel at that column.
proof fn lemma_coords(width: u32, p: int, px: int, py: int)
    requires
        width > 0,
        p >= 0,
        0 <= px < width,
        py >= 0,
    ensures
        (col_of(width, p) == px && row_of(width, p) == py) <==> p == py * width + px,
{
    lemma_fundamental_div_mod(p, width as int);
    let q = p / (width as int);
    assert((width as int) * q == q * width) by (nonlinear_arith);
    assert((width as int) * py == py * width) by (nonlinear_arith);
    if p == py * width + px {
        lemma_fundamental_div_mod_converse(p, width as int, py, px);
    }
}

/// Pixel numbers below `width * height` have a column below `width` and a row below `height`.
proof fn lemma_in_picture(width: u32, height: u32, p: int)
    requires
        width > 0,
        0 <= p < width * height,
    ensures
        0 <= col_of(width, p) < width,
        0 <= row_of(width, p) < height,
{
    lemma_fundamental_div_mod(p, width as int);
    let q = row_of(width, p);
    let r = col_of(width, p);
    assert(0 <= r < width);
    assert(p == width * q + r);
    if q >= height {
        assert(width * q >= width * height) by (nonlinear_arith)
            requires
                q >= height,
                width > 0,
        ;
    }
    if q < 0 {
        assert(width * q <= -(width as int)) by (nonlinear_arith)
            requires
                q < 0,
                width > 0,
        ;
    }
}

/// A picture with a byte at `k` has pixels, hence a positive width.
proof fn lemma_picture_width(width: u32, height: u32, k: int)
    requires
        0 <= k < width * height * 4,
    ensures
        width > 0,
        0 <= k / 4 < width * height,
{
    if width == 0 {
        assert(width * height * 4 == 0);
    }
}

/// Sets pixel (`px`, `py`) of a picture with rows of `width` pixels to `color`.
fn set_pixel(rgba: &mut Vec<u8>, width: u32, height: u32, px: u32, py: u32, color: [u8; 4])
    requires
        old(rgba)@.len() == width * height * 4,
        px < width,
        py < height,
    ensures
        repainted(old(rgba)@, final(rgba)@, width, |c: int, r: int| c == px && r == py, color),
{
    proof {
        assert(py * width + px < width * height) by (nonlinear_arith)
            requires
                px < width,
                py < height,
        ;
        assert(0 <= py * width) by (nonlinear_arith);
    }
    let n = rgba.len();
    assert(py * width + px < width * height);
    assert(py * width <= usize::MAX);
    let p: usize = (py as usize) * (width as usize) + (px as usize);
    let i: usize = p * 4;
    rgba.set(i, color[0]);
    rgba.set(i + 1, color[1]);
    rgba.set(i + 2, color[2]);
    rgba.set(i + 3, color[3]);
    proof {
        let sel = |c: int, r: int| c == px && r == py;
        assert forall|k: int| 0 <= k < old(rgba)@.len() implies #[trigger] rgba@[k] == byte_painted(
            old(rgba)@,
            width,
            k,
            sel,
            color,
        ) by {
            lemma_coords(width, k / 4, px as int, py as int);
            if k / 4 == p {
                assert(i <= k < i + 4);
            } else {
                assert(k < i || k >= i + 4);
            }
        }
    }
}

/// Pixel (`px`, `py`) lies in the `w` by `h` rectangle at column `x`, row `y`.
pub open spec fn in_box(x: int, y: int, w: int, h: int, px: int, py: int) -> bool {
    x <= px < x + w && y <= py < y + h
}

/// Fills the `w` by `h` rectangle at column `x`, row `y` with `color`, clipped to the picture.
pub fn fill_rect(img: &mut Raster, x: i32, y: i32, w: i32, h: i32, color: [u8; 4])
    requires
        old(img).wf(),
        i32::MIN <= x + w <= i32::MAX,
        i32::MIN <= y + h <= i32::MAX,
    ensures
        final(img).wf(),
        final(img).width == old(img).width,
        final(img).height == old(img).height,
        repainted(
            old(img).rgba@,
            final(img).rgba@,
            old(img).width,
            |c: int, r: int| in_box(x as int, y as int, w as int, h as int, c, r),
            color,
        ),
{
    let ghost start = img.rgba@;
    let width = img.width;
    let height = img.height;
    let y_end: i32 = if y + h < height as i32 { y + h } else { height as i32 };
    let x_end: i32 = if x + w < width as i32 { x + w } else { width as i32 };
    let mut py: i32 = if y > 0 { y } else { 0 };
    let ghost y_lo = py;
    let x_lo: i32 = if x > 0 { x } else { 0 };
    proof {
        let none = |c: int, r: int| in_box(x as int, y as int, w as int, h as int, c, r) && r < py;
        assert forall|k: int| 0 <= k < start.len() implies #[trigger] img.rgba@[k]
            == byte_painted(start, width, k, none, color) by {
            lemma_picture_width(width, height, k);
            lemma_in_picture(width, height, k / 4);
        }
    }
    while py < y_end
        invariant
            img.width == width,
            img.height == height,
            img.rgba@.len() == start.len(),
            start.len() == width * height * 4,
            width <= i32::MAX,
            height <= i32::MAX,
            y_lo <= py,
            y_lo == (if y > 0 { y } else { 0 }),
            x_lo == (if x > 0 { x } else { 0 }),
            y_end == (if y + h < height { y + h } else { height as int }),
            x_end == (if x + w < width { x + w } else { width as int }),
            repainted(start, img.rgba@, width, |c: int, r: int| in_box(x as int, y as int, w as int, h as int, c, r) && r < py, color),
        decreases y_end - py,
    {
        let mut px: i32 = x_lo;
        proof {
            let rows = |c: int, r: int| in_box(x as int, y as int, w as int, h as int, c, r) && r < py;
            let cols = |c: int, r: int| in_box(x as int, y as int, w as int, h as int, c, r) && (r < py || (r == py && c < px));
            assert forall|k: int| 0 <= k < start.len() implies #[trigger] img.rgba@[k]
                == byte_painted(start, width, k, cols, color) by {
                assert(img.rgba@[k] == byte_painted(start, width, k, rows, color));
                lemma_picture_width(width, height, k);
                lemma_in_picture(width, height, k / 4);
            }
        }
        while px < x_end
            invariant
                img.width == width,
                img.height == height,
                img.rgba@.len() == start.len(),
                start.len() == width * height * 4,
                width <= i32::MAX,
                height <= i32::MAX,
                0 <= py < y_end,
                y_lo <= py,
                y_lo == (if y > 0 { y } else { 0 }),
                x_lo == (if x > 0 { x } else { 0 }),
                x_lo <= px,
                y_end == (if y + h < height { y + h } else { height as int }),
                x_end == (if x + w < width { x + w } else { width as int }),
                    repainted(
                    start,
                    img.rgba@,
                    width,
                    |c: int, r: int| in_box(x as int, y as int, w as int, h as int, c, r) && (r < py || (r == py && c < px)),
                    color,
                ),
            decreases x_end - px,
        {
            let ghost pre = img.rgba@;
            set_pixel(&mut img.rgba, width, height, px as u32, py as u32, color);
            proof {
                let before = |c: int, r: int| in_box(x as int, y as int, w as int, h as int, c, r) && (r < py || (r == py && c < px));
                let after = |c: int, r: int| in_box(x as int, y as int, w as int, h as int, c, r) && (r < py || (r == py && c < px + 1));
                assert forall|k: int| 0 <= k < start.len() implies #[trigger] img.rgba@[k]
                    == byte_painted(start, width, k, after, color) by {
                    assert(pre[k] == byte_painted(start, width, k, before, color));
                    let one = |c: int, r: int| c == px && r == py;
                    assert(img.rgba@[k] == byte_painted(pre, width, k, one, color));
                }
            }
            px = px + 1;
        }
        proof {
            let inner = |c: int, r: int| in_box(x as int, y as int, w as int, h as int, c, r) && (r < py || (r == py && c < px));
            let outer = |c: int, r: int| in_box(x as int, y as int, w as int, h as int, c, r) && r < py + 1;
            assert forall|k: int| 0 <= k < start.len() implies #[trigger] img.rgba@[k]
                == byte_painted(start, width, k, outer, color) by {
                assert(img.rgba@[k] == byte_painted(start, width, k, inner, color));
                lemma_picture_width(width, height, k);
                lemma_in_picture(width, height, k / 4);
            }
        }
        py = py + 1;
    }
    proof {
        let done = |c: int, r: int| in_box(x as int, y as int, w as int, h as int, c, r) && r < py;
        assert forall|k: int| 0 <= k < start.len() implies #[trigger] img.rgba@[k]
            == byte_painted(start, width, k, |c: int, r: int| in_box(x as int, y as int, w as int, h as int, c, r), color) by {
            assert(img.rgba@[k] == byte_painted(start, width, k, done, color));
            lemma_picture_width(width, height, k);
            lemma_in_picture(width, height, k / 4);
        }
    }
}

/// Pixel (`px`, `py`) lies in the disc of radius `radius` around (`cx`, `cy`); a negative
/// radius names no pixel.
pub open spec fn in_disc(cx: int, cy: int, radius: int, px: int, py: int) -> bool {
    radius >= 0 && (px - cx) * (px - cx) + (py - cy) * (py - cy) <= radius * radius
}

/// A pixel of the disc lies within `radius` of the centre along both axes.
proof fn lemma_disc_box(cx: int, cy: int, radius: int, px: int, py: int)
    requires
        in_disc(cx, cy, radius, px, py),
    ensures
        cx - radius <= px <= cx + radius,
        cy - radius <= py <= cy + radius,
{
    let dx = px - cx;
    let dy = py - cy;
    assert(dx * dx <= radius * radius && dy * dy <= radius * radius) by (nonlinear_arith)
        requires
            dx * dx + dy * dy <= radius * radius,
    ;
    assert(-radius <= dx <= radius) by (nonlinear_arith)
        requires
            dx * dx <= radius * radius,
            radius >= 0,
    ;
    assert(-radius <= dy <= radius) by (nonlinear_arith)
        requires
            dy * dy <= radius * radius,
            radius >= 0,
    ;
}

/// The larger of the squares of `a` and `b`.
pub open spec fn max_square(a: int, b: int) -> int {
    if a * a >= b * b {
        a * a
    } else {
        b * b
    }
}

/// The disc's loops over the picture stay within `i32`: the row bounds always, the
/// column bounds when some row is visited, and the squared distances and radius
/// when some pixel is visited.
pub open spec fn circle_fits_i32(width: u32, height: u32, cx: int, cy: int, radius: int) -> bool {
    let y_lo = if cy - radius > 0 { cy - radius } else { 0 };
    let y_hi = if cy + radius < height - 1 { cy + radius } else { height - 1 };
    let x_lo = if cx - radius > 0 { cx - radius } else { 0 };
    let x_hi = if cx + radius < width - 1 { cx + radius } else { width - 1 };
    &&& i32::MIN <= cy - radius <= i32::MAX
    &&& i32::MIN <= cy + radius <= i32::MAX
    &&& y_lo <= y_hi ==> i32::MIN <= cx - radius <= i32::MAX && i32::MIN <= cx + radius <= i32::MAX
    &&& y_lo <= y_hi && x_lo <= x_hi ==> radius * radius <= i32::MAX && max_square(x_lo - cx, x_hi - cx)
        + max_square(y_lo - cy, y_hi - cy) <= i32::MAX
}

/// Fills the disc of radius `radius` around (`cx`, `cy`) with `color`, clipped to the picture.
pub fn fill_circle(img: &mut Raster, cx: i32, cy: i32, radius: i32, color: [u8; 4])
    requires
        old(img).wf(),
        circle_fits_i32(old(img).width, old(img).height, cx as int, cy as int, radius as int),
    ensures
        final(img).wf(),
        final(img).width == old(img).width,
        final(img).height == old(img).height,
        repainted(
            old(img).rgba@,
            final(img).rgba@,
            old(img).width,
            |c: int, r: int| in_disc(cx as int, cy as int, radius as int, c, r),
            color,
        ),
{
    let ghost start = img.rgba@;
    let width = img.width;
    let height = img.height;
    let cx64 = cx as i64;
    let cy64 = cy as i64;
    let r64 = radius as i64;
    let w64 = width as i64;
    let h64 = height as i64;
    let y_hi: i64 = if cy64 + r64 < h64 - 1 { cy64 + r64 } else { h64 - 1 };
    let x_hi: i64 = if cx64 + r64 < w64 - 1 { cx64 + r64 } else { w64 - 1 };
    let mut py: i64 = if cy64 - r64 > 0 { cy64 - r64 } else { 0 };
    let x_lo: i64 = if cx64 - r64 > 0 { cx64 - r64 } else { 0 };
    let ghost y_lo = py;
    proof {
        let none = |c: int, r: int| in_disc(cx as int, cy as int, radius as int, c, r) && r < py;
        assert forall|k: int| 0 <= k < start.len() implies #[trigger] img.rgba@[k]
            == byte_painted(start, width, k, none, color) by {
            lemma_picture_width(width, height, k);
            lemma_in_picture(width, height, k / 4);
            if in_disc(cx as int, cy as int, radius as int, col_of(width, k / 4), row_of(width, k / 4)) {
                lemma_disc_box(cx as int, cy as int, radius as int, col_of(width, k / 4), row_of(width, k / 4));
            }
        }
    }
    while py <= y_hi
        invariant
            img.width == width,
            img.height == height,
            img.rgba@.len() == start.len(),
            start.len() == width * height * 4,
            width <= i32::MAX,
            height <= i32::MAX,
            cx64 == cx,
            cy64 == cy,
            r64 == radius,
            y_lo <= py,
            y_lo == (if cy - radius > 0 { cy - radius } else { 0 }),
            x_lo == (if cx - radius > 0 { cx - radius } else { 0 }),
            y_hi == (if cy + radius < height - 1 { cy + radius } else { height - 1 }),
            x_hi == (if cx + radius < width - 1 { cx + radius } else { width - 1 }),
            repainted(
                start,
                img.rgba@,
                width,
                |c: int, r: int| in_disc(cx as int, cy as int, radius as int, c, r) && r < py,
                color,
            ),
        decreases y_hi + 1 - py,
    {
        let mut px: i64 = x_lo;
        proof {
            let rows = |c: int, r: int| in_disc(cx as int, cy as int, radius as int, c, r) && r < py;
            let cols = |c: int, r: int|
                in_disc(cx as int, cy as int, radius as int, c, r) && (r < py || (r == py && c < px));
            assert forall|k: int| 0 <= k < start.len() implies #[trigger] img.rgba@[k]
                == byte_painted(start, width, k, cols, color) by {
                assert(img.rgba@[k] == byte_painted(start, width, k, rows, color));
                lemma_picture_width(width, height, k);
                lemma_in_picture(width, height, k / 4);
                if in_disc(cx as int, cy as int, radius as int, col_of(width, k / 4), row_of(width, k / 4)) {
                    lemma_disc_box(cx as int, cy as int, radius as int, col_of(width, k / 4), row_of(width, k / 4));
                }
            }
        }
        while px <= x_hi
            invariant
                img.width == width,
                img.height == height,
                img.rgba@.len() == start.len(),
                start.len() == width * height * 4,
                width <= i32::MAX,
                height <= i32::MAX,
                cx64 == cx,
                cy64 == cy,
                r64 == radius,
                0 <= py <= y_hi,
                y_lo <= py,
                y_lo == (if cy - radius > 0 { cy - radius } else { 0 }),
                x_lo == (if cx - radius > 0 { cx - radius } else { 0 }),
                x_lo <= px,
                y_hi == (if cy + radius < height - 1 { cy + radius } else { height - 1 }),
                x_hi == (if cx + radius < width - 1 { cx + radius } else { width - 1 }),
                repainted(
                    start,
                    img.rgba@,
                    width,
                    |c: int, r: int|
                        in_disc(cx as int, cy as int, radius as int, c, r) && (r < py || (r == py
                            && c < px)),
                    color,
                ),
            decreases x_hi + 1 - px,
        {
            let dx: i64 = px - cx64;
            let dy: i64 = py - cy64;
            proof {
                assert(0 <= dx * dx <= 0x7fff_ffff * 0x7fff_ffff && 0 <= dy * dy <= 0x7fff_ffff
                    * 0x7fff_ffff && 0 <= r64 * r64 <= 0x7fff_ffff * 0x7fff_ffff) by (nonlinear_arith)
                    requires
                        -r64 <= dx <= r64,
                        -r64 <= dy <= r64,
                        0 <= r64 <= 0x7fff_ffff,
                ;
            }
            let ghost pre = img.rgba@;
            if dx * dx + dy * dy <= r64 * r64 {
                set_pixel(&mut img.rgba, width, height, px as u32, py as u32, color);
            }
            proof {
                let before = |c: int, r: int|
                    in_disc(cx as int, cy as int, radius as int, c, r) && (r < py || (r == py && c < px));
                let after = |c: int, r: int|
                    in_disc(cx as int, cy as int, radius as int, c, r) && (r < py || (r == py && c
                        < px + 1));
                assert forall|k: int| 0 <= k < start.len() implies #[trigger] img.rgba@[k]
                    == byte_painted(start, width, k, after, color) by {
                    assert(pre[k] == byte_painted(start, width, k, before, color));
                    if dx * dx + dy * dy <= r64 * r64 {
                        let one = |c: int, r: int| c == px && r == py;
                        assert(img.rgba@[k] == byte_painted(pre, width, k, one, color));
                    }
                }
            }
            px = px + 1;
        }
        proof {
            let inner = |c: int, r: int|
                in_disc(cx as int, cy as int, radius as int, c, r) && (r < py || (r == py && c < px));
            let outer = |c: int, r: int| in_disc(cx as int, cy as int, radius as int, c, r) && r < py + 1;
            assert forall|k: int| 0 <= k < start.len() implies #[trigger] img.rgba@[k]
                == byte_painted(start, width, k, outer, color) by {
                assert(img.rgba@[k] == byte_painted(start, width, k, inner, color));
                lemma_picture_width(width, height, k);
                lemma_in_picture(width, height, k / 4);
                if in_disc(cx as int, cy as int, radius as int, col_of(width, k / 4), row_of(width, k / 4)) {
                    lemma_disc_box(cx as int, cy as int, radius as int, col_of(width, k / 4), row_of(width, k / 4));
                }
            }
        }
        py = py + 1;
    }
    proof {
        let done = |c: int, r: int| in_disc(cx as int, cy as int, radius as int, c, r) && r < py;
        assert forall|k: int| 0 <= k < start.len() implies #[trigger] img.rgba@[k]
            == byte_painted(start, width, k, |c: int, r: int| in_disc(cx as int, cy as int, radius as int, c, r), color) by {
            assert(img.rgba@[k] == byte_painted(start, width, k, done, color));
            lemma_picture_width(width, height, k);
            lemma_in_picture(width, height, k / 4);
            if in_disc(cx as int, cy as int, radius as int, col_of(width, k / 4), row_of(width, k / 4)) {
                lemma_disc_box(cx as int, cy as int, radius as int, col_of(width, k / 4), row_of(width, k / 4));
            }
        }
    }
}

} // verus!
