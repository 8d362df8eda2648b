//! Decoded RGBA pixel buffers and the pixel-exact operations the packer
//! performs on them: blank canvases, blitting, cropping, edge extrusion and
//! alpha bleeding. Every operation builds its result row by row and is
//! specified pixel by pixel.

use vstd::prelude::*;

use crate::geom::Rect;

verus! {

/// A decoded image: RGBA samples in row-major order, four bytes per pixel.
#[derive(Debug, Clone)]
pub struct Pixels {
    pub width: u32,
    pub height: u32,
    pub data: Vec<u8>,
}

impl Pixels {
    /// The buffer holds exactly its pixels.
    pub open spec fn wf(self) -> bool {
        self.data@.len() == self.width * self.height * 4
    }

    /// Channel `c` (0 red, 1 green, 2 blue, 3 alpha) of the pixel at
    /// (`x`, `y`).
    pub open spec fn channel(self, x: int, y: int, c: int) -> u8 {
        self.data@[(y * self.width + x) * 4 + c]
    }

    /// The pixel at (`x`, `y`) has nonzero alpha.
    pub open spec fn opaque_at(self, x: int, y: int) -> bool {
        self.channel(x, y, 3) != 0
    }

    /// Read one channel.
    pub fn get_channel(&self, x: u32, y: u32, c: u32) -> (r: u8)
        requires
            self.wf(),
            x < self.width,
            y < self.height,
            c < 4,
        ensures
            r == self.channel(x as int, y as int, c as int),
    {
        let n = self.data.len();
        proof {
            lemma_rowmajor_bound(x as int, y as int, self.width as int, self.height as int);
        }
        let i = (y as usize * self.width as usize + x as usize) * 4 + c as usize;
        self.data[i]
    }
}

/// A pixel's first byte sits before the buffer's end.
proof fn lemma_rowmajor_bound(x: int, y: int, w: int, h: int)
    requires
        0 <= x < w,
        0 <= y < h,
    ensures
        (y * w + x) * 4 + 3 < w * h * 4,
        0 <= (y * w + x) * 4,
    decreases h,
{
    assert((y * w + x) * 4 + 3 < w * h * 4 && 0 <= (y * w + x) * 4) by (nonlinear_arith)
        requires
            0 <= x < w,
            0 <= y < h,
    ;
}

/// Row-major order: a pixel in an earlier row, or earlier in the same row,
/// has a smaller index.
proof fn lemma_rowmajor_lt(px: int, py: int, x: int, y: int, w: int)
    requires
        0 <= px < w,
        0 <= x <= w,
        py < y || (py == y && px < x),
        0 <= py,
    ensures
        (py * w + px) * 4 + 3 < (y * w + x) * 4,
{
    assert((py * w + px) * 4 + 3 < (y * w + x) * 4) by (nonlinear_arith)
        requires
            0 <= px < w,
            0 <= x <= w,
            py < y || (py == y && px < x),
            0 <= py,
    ;
}

/// A blank, fully transparent canvas.
pub fn new_canvas(width: u32, height: u32) -> (r: Pixels)
    requires
        width as int * height as int * 4 <= usize::MAX,
    ensures
        r.wf(),
        r.width == width,
        r.height == height,
        forall|x: int, y: int, c: int|
            0 <= x < width && 0 <= y < height && 0 <= c < 4 ==> r.channel(x, y, c) == 0u8,
{
    let total: usize = width as usize * height as usize * 4;
    let mut data: Vec<u8> = Vec::new();
    let mut i: usize = 0;
    while i < total
        invariant
            i <= total,
            total == width as int * height as int * 4,
            data@.len() == i,
            forall|k: int| 0 <= k < i ==> data@[k] == 0u8,
        decreases total - i,
    {
        data.push(0);
        i += 1;
    }
    let r = Pixels { width, height, data };
    proof {
        assert forall|x: int, y: int, c: int|
            0 <= x < width && 0 <= y < height && 0 <= c < 4 implies r.channel(x, y, c) == 0u8 by {
            lemma_rowmajor_bound(x, y, width as int, height as int);
        }
    }
    r
}

/// What blitting `src` onto `dst` at (`dx`, `dy`) leaves at each channel:
/// the source pixel where one lands there, the old pixel elsewhere. Source
/// pixels falling outside the canvas are dropped.
pub open spec fn blit_channel(
    dst: Pixels,
    src: Pixels,
    dx: int,
    dy: int,
    px: int,
    py: int,
    c: int,
) -> u8 {
    if dx <= px < dx + src.width && dy <= py < dy + src.height {
        src.channel(px - dx, py - dy, c)
    } else {
        dst.channel(px, py, c)
    }
}

/// Composite `src` onto `dst` at (`dx`, `dy`), clipping at the canvas
/// edges.
pub fn blit_onto(dst: &Pixels, src: &Pixels, dx: u32, dy: u32) -> (r: Pixels)
    requires
        dst.wf(),
        src.wf(),
    ensures
        r.wf(),
        r.width == dst.width,
        r.height == dst.height,
        forall|px: int, py: int, c: int|
            0 <= px < dst.width && 0 <= py < dst.height && 0 <= c < 4 ==> r.channel(px, py, c)
                == blit_channel(*dst, *src, dx as int, dy as int, px, py, c),
{
    let mut data: Vec<u8> = Vec::new();
    let mut y: u32 = 0;
    while y < dst.height
        invariant
            y <= dst.height,
            dst.wf(),
            src.wf(),
            data@.len() == y * dst.width * 4,
            forall|px: int, py: int, c: int|
                0 <= px < dst.width && 0 <= py < y && 0 <= c < 4 ==> data@[(py * dst.width + px)
                    * 4 + c] == blit_channel(*dst, *src, dx as int, dy as int, px, py, c),
        decreases dst.height - y,
    {
        let mut x: u32 = 0;
        while x < dst.width
            invariant
                y < dst.height,
                x <= dst.width,
                dst.wf(),
                src.wf(),
                data@.len() == (y * dst.width + x) * 4,
                forall|px: int, py: int, c: int|
                    0 <= px < dst.width && 0 <= c < 4 && (0 <= py < y || (py == y && 0 <= px < x))
                        ==> data@[(py * dst.width + px) * 4 + c] == blit_channel(
                        *dst,
                        *src,
                        dx as int,
                        dy as int,
                        px,
                        py,
                        c,
                    ),
            decreases dst.width - x,
        {
            let ghost prev = data@;
            let in_src_x = dx <= x && (x as u64) < dx as u64 + src.width as u64;
            let in_src_y = dy <= y && (y as u64) < dy as u64 + src.height as u64;
            let mut c: u32 = 0;
            while c < 4
                invariant
                    c <= 4,
                    y < dst.height,
                    x < dst.width,
                    dst.wf(),
                    src.wf(),
                    in_src_x == (dx <= x < dx + src.width),
                    in_src_y == (dy <= y < dy + src.height),
                    data@.len() == (y * dst.width + x) * 4 + c,
                    prev == data@.take(((y * dst.width + x) * 4) as int),
                    forall|cc: int|
                        0 <= cc < c ==> data@[(y * dst.width + x) * 4 + cc] == blit_channel(
                            *dst,
                            *src,
                            dx as int,
                            dy as int,
                            x as int,
                            y as int,
                            cc,
                        ),
                decreases 4 - c,
            {
                let v: u8 = if in_src_x && in_src_y {
                    src.get_channel(x - dx, y - dy, c)
                } else {
                    dst.get_channel(x, y, c)
                };
                data.push(v);
                proof {
                    assert(data@.take(((y * dst.width + x) * 4) as int) =~= prev);
                }
                c += 1;
            }
            proof {
                lemma_rowmajor_bound(x as int, y as int, dst.width as int, dst.height as int);
                assert forall|px: int, py: int, cc: int|
                    0 <= px < dst.width && 0 <= cc < 4 && (0 <= py < y || (py == y && 0 <= px < x
                        + 1)) implies data@[(py * dst.width + px) * 4 + cc] == blit_channel(
                    *dst,
                    *src,
                    dx as int,
                    dy as int,
                    px,
                    py,
                    cc,
                ) by {
                    if py < y || px < x {
                        lemma_rowmajor_lt(px, py, x as int, y as int, dst.width as int);
                        assert(data@[(py * dst.width + px) * 4 + cc] == prev[(py * dst.width + px)
                            * 4 + cc]);
                    }
                }
            }
            x += 1;
        }
        proof {
            assert((y as int + 1) * (dst.width as int) * 4 == (y as int * (dst.width as int)
                + dst.width as int) * 4) by (nonlinear_arith);
        }
        y += 1;
    }
    let r = Pixels { width: dst.width, height: dst.height, data };
    proof {
        assert(r.wf()) by {
            assert(r.data@.len() == dst.height * dst.width * 4);
            assert(dst.height as int * (dst.width as int) * 4 == dst.width as int * (dst.height
                as int) * 4) by (nonlinear_arith);
        }
    }
    r
}

/// Copy out the box of size (`cw`, `ch`) anchored at (`cx`, `cy`).
pub fn crop_of(src: &Pixels, cx: u32, cy: u32, cw: u32, ch: u32) -> (r: Pixels)
    requires
        src.wf(),
        cx + cw <= src.width,
        cy + ch <= src.height,
    ensures
        r.wf(),
        r.width == cw,
        r.height == ch,
        forall|px: int, py: int, c: int|
            0 <= px < cw && 0 <= py < ch && 0 <= c < 4 ==> (#[trigger] r.channel(px, py, c))
                == src.channel(cx + px, cy + py, c),
{
    let mut data: Vec<u8> = Vec::new();
    let mut y: u32 = 0;
    while y < ch
        invariant
            y <= ch,
            src.wf(),
            cx + cw <= src.width,
            cy + ch <= src.height,
            data@.len() == y * cw * 4,
            forall|px: int, py: int, c: int|
                0 <= px < cw && 0 <= py < y && 0 <= c < 4 ==> (#[trigger] data@[(py * cw + px) * 4
                    + c]) == src.channel(cx + px, cy + py, c),
        decreases ch - y,
    {
        let mut x: u32 = 0;
        while x < cw
            invariant
                y < ch,
                x <= cw,
                src.wf(),
                cx + cw <= src.width,
                cy + ch <= src.height,
                data@.len() == (y * cw + x) * 4,
                forall|px: int, py: int, c: int|
                    0 <= px < cw && 0 <= c < 4 && (0 <= py < y || (py == y && 0 <= px < x)) ==> (
                    #[trigger] data@[(py * cw + px) * 4 + c]) == src.channel(cx + px, cy + py, c),
            decreases cw - x,
        {
            let ghost prev = data@;
            let mut c: u32 = 0;
            while c < 4
                invariant
                    c <= 4,
                    y < ch,
                    x < cw,
                    src.wf(),
                    cx + cw <= src.width,
                    cy + ch <= src.height,
                    data@.len() == (y * cw + x) * 4 + c,
                    prev == data@.take(((y * cw + x) * 4) as int),
                    forall|cc: int|
                        0 <= cc < c ==> (#[trigger] data@[(y * cw + x) * 4 + cc]) == src.channel(
                            cx + x as int,
                            cy + y as int,
                            cc,
                        ),
                decreases 4 - c,
            {
                let v = src.get_channel(cx + x, cy + y, c);
                data.push(v);
                proof {
                    assert(data@.take(((y * cw + x) * 4) as int) =~= prev);
                }
                c += 1;
            }
            proof {
                lemma_rowmajor_bound(x as int, y as int, cw as int, ch as int);
                assert forall|px: int, py: int, cc: int|
                    0 <= px < cw && 0 <= cc < 4 && (0 <= py < y || (py == y && 0 <= px < x
                        + 1)) implies (#[trigger] data@[(py * cw + px) * 4 + cc]) == src.channel(
                    cx + px,
                    cy + py,
                    cc,
                ) by {
                    if py < y || px < x {
                        lemma_rowmajor_lt(px, py, x as int, y as int, cw as int);
                        assert(data@[(py * cw + px) * 4 + cc] == prev[(py * cw + px) * 4 + cc]);
                    }
                }
            }
            x += 1;
        }
        proof {
            assert((y as int + 1) * (cw as int) * 4 == (y as int * (cw as int) + cw as int) * 4)
                by (nonlinear_arith);
        }
        y += 1;
    }
    let r = Pixels { width: cw, height: ch, data };
    proof {
        assert(r.wf()) by {
            assert(ch as int * (cw as int) * 4 == cw as int * (ch as int) * 4) by (nonlinear_arith);
        }
    }
    r
}

/// What edge extrusion leaves at each channel: within `n` pixels straight
/// out from a side of `rect`, the nearest edge pixel of the sprite; the old
/// pixel everywhere else. Corners beyond the sprite's sides are untouched.
pub open spec fn extrude_channel(p: Pixels, rect: Rect, n: int, px: int, py: int, c: int) -> u8 {
    if rect.y <= py < rect.y + rect.height && px < rect.x && rect.x - px <= n {
        p.channel(rect.x as int, py, c)
    } else if rect.y <= py < rect.y + rect.height && rect.x + rect.width <= px && px - (rect.x
        + rect.width - 1) <= n {
        p.channel(rect.x + rect.width - 1, py, c)
    } else if rect.x <= px < rect.x + rect.width && py < rect.y && rect.y - py <= n {
        p.channel(px, rect.y as int, c)
    } else if rect.x <= px < rect.x + rect.width && rect.y + rect.height <= py && py - (rect.y
        + rect.height - 1) <= n {
        p.channel(px, rect.y + rect.height - 1, c)
    } else {
        p.channel(px, py, c)
    }
}

/// Replicate the outer edge pixels of the sprite at `rect` outward by `n`
/// pixels on all four sides, clipped to the canvas.
pub fn extrude_pass(p: &Pixels, rect: Rect, n: u32) -> (r: Pixels)
    requires
        p.wf(),
        1 <= rect.width,
        1 <= rect.height,
        rect.x + rect.width <= p.width,
        rect.y + rect.height <= p.height,
    ensures
        r.wf(),
        r.width == p.width,
        r.height == p.height,
        forall|px: int, py: int, c: int|
            0 <= px < p.width && 0 <= py < p.height && 0 <= c < 4 ==> r.channel(px, py, c)
                == extrude_channel(*p, rect, n as int, px, py, c),
{
    let mut data: Vec<u8> = Vec::new();
    let mut y: u32 = 0;
    while y < p.height
        invariant
            y <= p.height,
            p.wf(),
            1 <= rect.width,
            1 <= rect.height,
            rect.x + rect.width <= p.width,
            rect.y + rect.height <= p.height,
            data@.len() == y * p.width * 4,
            forall|px: int, py: int, c: int|
                0 <= px < p.width && 0 <= py < y && 0 <= c < 4 ==> data@[(py * p.width + px) * 4
                    + c] == extrude_channel(*p, rect, n as int, px, py, c),
        decreases p.height - y,
    {
        let mut x: u32 = 0;
        while x < p.width
            invariant
                y < p.height,
                x <= p.width,
                p.wf(),
                1 <= rect.width,
                1 <= rect.height,
                rect.x + rect.width <= p.width,
                rect.y + rect.height <= p.height,
                data@.len() == (y * p.width + x) * 4,
                forall|px: int, py: int, c: int|
                    0 <= px < p.width && 0 <= c < 4 && (0 <= py < y || (py == y && 0 <= px < x))
                        ==> data@[(py * p.width + px) * 4 + c] == extrude_channel(
                        *p,
                        rect,
                        n as int,
                        px,
                        py,
                        c,
                    ),
            decreases p.width - x,
        {
            let ghost prev = data@;
            let in_rows = rect.y <= y && y < rect.y + rect.height;
            let in_cols = rect.x <= x && x < rect.x + rect.width;
            let left_band = in_rows && x < rect.x && rect.x - x <= n;
            let right_band = in_rows && rect.x + rect.width <= x && x - (rect.x + rect.width - 1)
                <= n;
            let top_band = in_cols && y < rect.y && rect.y - y <= n;
            let bottom_band = in_cols && rect.y + rect.height <= y && y - (rect.y + rect.height - 1)
                <= n;
            let mut c: u32 = 0;
            while c < 4
                invariant
                    c <= 4,
                    y < p.height,
                    x < p.width,
                    p.wf(),
                    1 <= rect.width,
                    1 <= rect.height,
                    rect.x + rect.width <= p.width,
                    rect.y + rect.height <= p.height,
                    in_rows == (rect.y <= y < rect.y + rect.height),
                    in_cols == (rect.x <= x < rect.x + rect.width),
                    left_band == (in_rows && x < rect.x && rect.x - x <= n),
                    right_band == (in_rows && rect.x + rect.width <= x && x - (rect.x + rect.width
                        - 1) <= n),
                    top_band == (in_cols && y < rect.y && rect.y - y <= n),
                    bottom_band == (in_cols && rect.y + rect.height <= y && y - (rect.y
                        + rect.height - 1) <= n),
                    data@.len() == (y * p.width + x) * 4 + c,
                    prev == data@.take(((y * p.width + x) * 4) as int),
                    forall|cc: int|
                        0 <= cc < c ==> data@[(y * p.width + x) * 4 + cc] == extrude_channel(
                            *p,
                            rect,
                            n as int,
                            x as int,
                            y as int,
                            cc,
                        ),
                decreases 4 - c,
            {
                let v: u8 = if left_band {
                    p.get_channel(rect.x, y, c)
                } else if right_band {
                    p.get_channel(rect.x + rect.width - 1, y, c)
                } else if top_band {
                    p.get_channel(x, rect.y, c)
                } else if bottom_band {
                    p.get_channel(x, rect.y + rect.height - 1, c)
                } else {
                    p.get_channel(x, y, c)
                };
                data.push(v);
                proof {
                    assert(data@.take(((y * p.width + x) * 4) as int) =~= prev);
                }
                c += 1;
            }
            proof {
                lemma_rowmajor_bound(x as int, y as int, p.width as int, p.height as int);
                assert forall|px: int, py: int, cc: int|
                    0 <= px < p.width && 0 <= cc < 4 && (0 <= py < y || (py == y && 0 <= px < x
                        + 1)) implies data@[(py * p.width + px) * 4 + cc] == extrude_channel(
                    *p,
                    rect,
                    n as int,
                    px,
                    py,
                    cc,
                ) by {
                    if py < y || px < x {
                        lemma_rowmajor_lt(px, py, x as int, y as int, p.width as int);
                        assert(data@[(py * p.width + px) * 4 + cc] == prev[(py * p.width + px) * 4
                            + cc]);
                    }
                }
            }
            x += 1;
        }
        proof {
            assert((y as int + 1) * (p.width as int) * 4 == (y as int * (p.width as int)
                + p.width as int) * 4) by (nonlinear_arith);
        }
        y += 1;
    }
    let r = Pixels { width: p.width, height: p.height, data };
    proof {
        assert(r.wf()) by {
            assert(p.height as int * (p.width as int) * 4 == p.width as int * (p.height as int)
                * 4) by (nonlinear_arith);
        }
    }
    r
}

/// What one alpha-bleed pass leaves at each channel: a fully transparent
/// pixel borrows the color of its first opaque 4-neighbor (above, left,
/// right, below, in that order); alpha, and every other pixel, is
/// untouched.
pub open spec fn bleed_channel(p: Pixels, px: int, py: int, c: int) -> u8 {
    if p.opaque_at(px, py) || c == 3 {
        p.channel(px, py, c)
    } else if py > 0 && p.opaque_at(px, py - 1) {
        p.channel(px, py - 1, c)
    } else if px > 0 && p.opaque_at(px - 1, py) {
        p.channel(px - 1, py, c)
    } else if px + 1 < p.width && p.opaque_at(px + 1, py) {
        p.channel(px + 1, py, c)
    } else if py + 1 < p.height && p.opaque_at(px, py + 1) {
        p.channel(px, py + 1, c)
    } else {
        p.channel(px, py, c)
    }
}

/// Propagate opaque color into adjacent fully transparent pixels without
/// changing any alpha value.
pub fn bleed_pass(p: &Pixels) -> (r: Pixels)
    requires
        p.wf(),
    ensures
        r.wf(),
        r.width == p.width,
        r.height == p.height,
        forall|px: int, py: int, c: int|
            0 <= px < p.width && 0 <= py < p.height && 0 <= c < 4 ==> r.channel(px, py, c)
                == bleed_channel(*p, px, py, c),
        forall|px: int, py: int|
            0 <= px < p.width && 0 <= py < p.height ==> r.channel(px, py, 3) == p.channel(
                px,
                py,
                3,
            ),
{
    let mut data: Vec<u8> = Vec::new();
    let mut y: u32 = 0;
    while y < p.height
        invariant
            y <= p.height,
            p.wf(),
            data@.len() == y * p.width * 4,
            forall|px: int, py: int, c: int|
                0 <= px < p.width && 0 <= py < y && 0 <= c < 4 ==> data@[(py * p.width + px) * 4
                    + c] == bleed_channel(*p, px, py, c),
        decreases p.height - y,
    {
        let mut x: u32 = 0;
        while x < p.width
            invariant
                y < p.height,
                x <= p.width,
                p.wf(),
                data@.len() == (y * p.width + x) * 4,
                forall|px: int, py: int, c: int|
                    0 <= px < p.width && 0 <= c < 4 && (0 <= py < y || (py == y && 0 <= px < x))
                        ==> data@[(py * p.width + px) * 4 + c] == bleed_channel(*p, px, py, c),
            decreases p.width - x,
        {
            let ghost prev = data@;
            let here_opaque = p.get_channel(x, y, 3) != 0;
            let up = y > 0 && p.get_channel(x, y - 1, 3) != 0;
            let left = x > 0 && p.get_channel(x - 1, y, 3) != 0;
            let right = x + 1 < p.width && p.get_channel(x + 1, y, 3) != 0;
            let down = y + 1 < p.height && p.get_channel(x, y + 1, 3) != 0;
            let mut c: u32 = 0;
            while c < 4
                invariant
                    c <= 4,
                    y < p.height,
                    x < p.width,
                    p.wf(),
                    here_opaque == p.opaque_at(x as int, y as int),
                    up == (y > 0 && p.opaque_at(x as int, y - 1)),
                    left == (x > 0 && p.opaque_at(x - 1, y as int)),
                    right == (x + 1 < p.width && p.opaque_at(x + 1, y as int)),
                    down == (y + 1 < p.height && p.opaque_at(x as int, y + 1)),
                    data@.len() == (y * p.width + x) * 4 + c,
                    prev == data@.take(((y * p.width + x) * 4) as int),
                    forall|cc: int|
                        0 <= cc < c ==> data@[(y * p.width + x) * 4 + cc] == bleed_channel(
                            *p,
                            x as int,
                            y as int,
                            cc,
                        ),
                decreases 4 - c,
            {
                let v: u8 = if here_opaque || c == 3 {
                    p.get_channel(x, y, c)
                } else if up {
                    p.get_channel(x, y - 1, c)
                } else if left {
                    p.get_channel(x - 1, y, c)
                } else if right {
                    p.get_channel(x + 1, y, c)
                } else if down {
                    p.get_channel(x, y + 1, c)
                } else {
                    p.get_channel(x, y, c)
                };
                data.push(v);
                proof {
                    assert(data@.take(((y * p.width + x) * 4) as int) =~= prev);
                }
                c += 1;
            }
            proof {
                lemma_rowmajor_bound(x as int, y as int, p.width as int, p.height as int);
                assert forall|px: int, py: int, cc: int|
                    0 <= px < p.width && 0 <= cc < 4 && (0 <= py < y || (py == y && 0 <= px < x
                        + 1)) implies data@[(py * p.width + px) * 4 + cc] == bleed_channel(
                    *p,
                    px,
                    py,
                    cc,
                ) by {
                    if py < y || px < x {
                        lemma_rowmajor_lt(px, py, x as int, y as int, p.width as int);
                        assert(data@[(py * p.width + px) * 4 + cc] == prev[(py * p.width + px) * 4
                            + cc]);
                    }
                }
            }
            x += 1;
        }
        proof {
            assert((y as int + 1) * (p.width as int) * 4 == (y as int * (p.width as int)
                + p.width as int) * 4) by (nonlinear_arith);
        }
        y += 1;
    }
    let r = Pixels { width: p.width, height: p.height, data };
    proof {
        assert(r.wf()) by {
            assert(p.height as int * (p.width as int) * 4 == p.width as int * (p.height as int)
                * 4) by (nonlinear_arith);
        }
        assert forall|px: int, py: int|
            0 <= px < p.width && 0 <= py < p.height implies r.channel(px, py, 3) == p.channel(
            px,
            py,
            3,
        ) by {
            assert(r.channel(px, py, 3) == bleed_channel(*p, px, py, 3));
        }
    }
    r
}

/// Some pixel of `p` has nonzero alpha.
pub open spec fn has_opaque(p: Pixels) -> bool {
    exists|x: int, y: int|
        0 <= x < p.width && 0 <= y < p.height && (#[trigger] p.opaque_at(x, y))
}

/// Some pixel of column `x` has nonzero alpha.
pub open spec fn col_has_opaque(p: Pixels, x: int) -> bool {
    exists|y: int| 0 <= y < p.height && (#[trigger] p.opaque_at(x, y))
}

/// Some pixel of row `y` has nonzero alpha.
pub open spec fn row_has_opaque(p: Pixels, y: int) -> bool {
    exists|x: int| 0 <= x < p.width && (#[trigger] p.opaque_at(x, y))
}

fn col_scan(p: &Pixels, x: u32) -> (r: bool)
    requires
        p.wf(),
        x < p.width,
    ensures
        r == col_has_opaque(*p, x as int),
{
    let mut y: u32 = 0;
    while y < p.height
        invariant
            y <= p.height,
            p.wf(),
            x < p.width,
            forall|yy: int| 0 <= yy < y ==> !(#[trigger] p.opaque_at(x as int, yy)),
        decreases p.height - y,
    {
        if p.get_channel(x, y, 3) != 0 {
            proof {
                assert(p.opaque_at(x as int, y as int));
            }
            return true;
        }
        y += 1;
    }
    false
}

fn row_scan(p: &Pixels, y: u32) -> (r: bool)
    requires
        p.wf(),
        y < p.height,
    ensures
        r == row_has_opaque(*p, y as int),
{
    let mut x: u32 = 0;
    while x < p.width
        invariant
            x <= p.width,
            p.wf(),
            y < p.height,
            forall|xx: int| 0 <= xx < x ==> !(#[trigger] p.opaque_at(xx, y as int)),
        decreases p.width - x,
    {
        if p.get_channel(x, y, 3) != 0 {
            proof {
                assert(p.opaque_at(x as int, y as int));
            }
            return true;
        }
        x += 1;
    }
    false
}

/// The tightest box holding every pixel with nonzero alpha, as
/// (left, top, right, bottom) inclusive; `None` for a fully transparent
/// image.
pub fn opaque_bounds(p: &Pixels) -> (r: Option<(u32, u32, u32, u32)>)
    requires
        p.wf(),
    ensures
        match r {
            None => !has_opaque(*p),
            Some((min_x, min_y, max_x, max_y)) => {
                &&& min_x <= max_x < p.width
                &&& min_y <= max_y < p.height
                &&& forall|x: int, y: int|
                    0 <= x < p.width && 0 <= y < p.height && (#[trigger] p.opaque_at(x, y))
                        ==> min_x <= x <= max_x && min_y <= y <= max_y
                &&& col_has_opaque(*p, min_x as int)
                &&& col_has_opaque(*p, max_x as int)
                &&& row_has_opaque(*p, min_y as int)
                &&& row_has_opaque(*p, max_y as int)
            },
        },
{
    if p.width == 0 || p.height == 0 {
        return None;
    }
    // Find the first column holding an opaque pixel; none means a fully
    // transparent image.
    let mut min_x: u32 = 0;
    loop
        invariant_except_break
            p.wf(),
            0 < p.width,
            0 < p.height,
            min_x <= p.width,
            forall|xx: int| 0 <= xx < min_x ==> !col_has_opaque(*p, xx),
        ensures
            p.wf(),
            0 < p.width,
            0 < p.height,
            min_x < p.width,
            col_has_opaque(*p, min_x as int),
            forall|xx: int| 0 <= xx < min_x ==> !col_has_opaque(*p, xx),
        decreases p.width - min_x,
    {
        if min_x == p.width {
            proof {
                assert forall|x: int, y: int|
                    0 <= x < p.width && 0 <= y < p.height implies !(#[trigger] p.opaque_at(
                    x,
                    y,
                )) by {
                    assert(!col_has_opaque(*p, x));
                }
            }
            return None;
        }
        if col_scan(p, min_x) {
            break ;
        }
        min_x += 1;
    }
    // The remaining three scans must find something: some pixel is opaque.
    let mut max_x: u32 = p.width - 1;
    loop
        invariant_except_break
            p.wf(),
            0 < p.width,
            0 < p.height,
            min_x <= max_x < p.width,
            col_has_opaque(*p, min_x as int),
            forall|xx: int| max_x < xx < p.width ==> !col_has_opaque(*p, xx),
        ensures
            p.wf(),
            min_x <= max_x < p.width,
            col_has_opaque(*p, max_x as int),
            forall|xx: int| max_x < xx < p.width ==> !col_has_opaque(*p, xx),
        decreases max_x,
    {
        if col_scan(p, max_x) {
            break ;
        }
        max_x -= 1;
    }
    let mut min_y: u32 = 0;
    loop
        invariant_except_break
            p.wf(),
            0 < p.width,
            0 < p.height,
            min_y < p.height,
            min_x < p.width,
            col_has_opaque(*p, min_x as int),
            forall|yy: int| 0 <= yy < min_y ==> !row_has_opaque(*p, yy),
        ensures
            p.wf(),
            min_y < p.height,
            row_has_opaque(*p, min_y as int),
            forall|yy: int| 0 <= yy < min_y ==> !row_has_opaque(*p, yy),
        decreases p.height - min_y,
    {
        if row_scan(p, min_y) {
            break ;
        }
        proof {
            if min_y + 1 == p.height {
                let wy = choose|y: int|
                    0 <= y < p.height && (#[trigger] p.opaque_at(min_x as int, y));
                assert(0 <= wy < p.height && p.opaque_at(min_x as int, wy));
                assert(row_has_opaque(*p, wy)) by {
                    assert(0 <= (min_x as int) && (min_x as int) < p.width && p.opaque_at(min_x as int, wy));
                }
                assert(false);
            }
        }
        min_y += 1;
    }
    let mut max_y: u32 = p.height - 1;
    loop
        invariant_except_break
            p.wf(),
            0 < p.width,
            0 < p.height,
            min_y <= max_y < p.height,
            row_has_opaque(*p, min_y as int),
            forall|yy: int| max_y < yy < p.height ==> !row_has_opaque(*p, yy),
        ensures
            p.wf(),
            min_y <= max_y < p.height,
            row_has_opaque(*p, max_y as int),
            forall|yy: int| max_y < yy < p.height ==> !row_has_opaque(*p, yy),
        decreases max_y,
    {
        if row_scan(p, max_y) {
            break ;
        }
        max_y -= 1;
    }
    proof {
        assert forall|x: int, y: int|
            0 <= x < p.width && 0 <= y < p.height && (#[trigger] p.opaque_at(x, y)) implies min_x
            <= x <= max_x && min_y <= y <= max_y by {
            assert(col_has_opaque(*p, x));
            assert(row_has_opaque(*p, y));
        }
    }
    Some((min_x, min_y, max_x, max_y))
}

/// One channel inside a row-major RGBA buffer of width `w`.
pub open spec fn sample_at(samples: Seq<u8>, w: int, x: int, y: int, c: int) -> u8 {
    samples[(y * w + x) * 4 + c]
}

/// The pixel at (`x`, `y`) of a row-major RGBA buffer has nonzero alpha.
pub open spec fn sample_opaque(samples: Seq<u8>, w: int, x: int, y: int) -> bool {
    sample_at(samples, w, x, y, 3) != 0
}

/// The box of size (`tw`, `th`) anchored at (`bx`, `by`), copied out of a
/// row-major RGBA buffer of width `w`, again in row-major order.
pub open spec fn crop_samples(samples: Seq<u8>, w: int, bx: int, by: int, tw: int, th: int) -> Seq<
    u8,
> {
    Seq::new(
        (th * tw * 4) as nat,
        |i: int|
            {
                let y = i / (tw * 4);
                let r = i % (tw * 4);
                let x = r / 4;
                let c = r % 4;
                sample_at(samples, w, bx + x, by + y, c)
            },
    )
}

/// A fully transparent row-major RGBA buffer.
pub open spec fn blank_samples(w: int, h: int) -> Seq<u8> {
    Seq::new((w * h * 4) as nat, |i: int| 0u8)
}

/// Drawing a source buffer over a destination buffer of width `dw` at
/// offset (`dx`, `dy`): within the source's footprint the source sample,
/// elsewhere the old sample.
pub open spec fn blit_samples(
    dst: Seq<u8>,
    dw: int,
    src: Seq<u8>,
    sw: int,
    sh: int,
    dx: int,
    dy: int,
) -> Seq<u8> {
    Seq::new(
        dst.len(),
        |i: int|
            {
                let y = i / (dw * 4);
                let r = i % (dw * 4);
                let x = r / 4;
                let c = r % 4;
                if dx <= x < dx + sw && dy <= y < dy + sh {
                    sample_at(src, sw, x - dx, y - dy, c)
                } else {
                    dst[i]
                }
            },
    )
}

/// Every buffer position is channel `c` of exactly one pixel (`x`, `y`).
pub proof fn lemma_sample_decompose(i: int, w: int, h: int)
    requires
        0 <= i < w * h * 4,
        0 <= w,
        0 <= h,
    ensures
        ({
            let y = i / (w * 4);
            let r = i % (w * 4);
            let x = r / 4;
            let c = r % 4;
            &&& 0 <= x < w
            &&& 0 <= y < h
            &&& 0 <= c < 4
            &&& i == (y * w + x) * 4 + c
        }),
{
    let y = i / (w * 4);
    let r = i % (w * 4);
    let x = r / 4;
    let c = r % 4;
    assert(w >= 1 && h >= 1) by (nonlinear_arith)
        requires
            0 <= i < w * h * 4,
            0 <= w,
            0 <= h,
    ;
    assert(i == (w * 4) * y + r && 0 <= r < w * 4) by (nonlinear_arith)
        requires
            y == i / (w * 4),
            r == i % (w * 4),
            0 <= i,
            w >= 1,
    ;
    assert(r == 4 * x + c && 0 <= c < 4 && 0 <= x) by (nonlinear_arith)
        requires
            x == r / 4,
            c == r % 4,
            0 <= r,
    ;
    assert(x < w) by (nonlinear_arith)
        requires
            4 * x + c == r,
            r < w * 4,
            0 <= c,
            0 <= x,
    ;
    assert(0 <= y && y < h) by (nonlinear_arith)
        requires
            i == (w * 4) * y + r,
            0 <= r < w * 4,
            0 <= i,
            i < w * h * 4,
            w >= 1,
            h >= 1,
    ;
    assert(i == (y * w + x) * 4 + c) by (nonlinear_arith)
        requires
            i == (w * 4) * y + r,
            r == 4 * x + c,
    ;
}


/// `extrude_channel`, read directly off a raw buffer of width `w`.
pub open spec fn extrude_sample_at(
    samples: Seq<u8>,
    w: int,
    rect: Rect,
    n: int,
    px: int,
    py: int,
    c: int,
) -> u8 {
    if rect.y <= py < rect.y + rect.height && px < rect.x && rect.x - px <= n {
        sample_at(samples, w, rect.x as int, py, c)
    } else if rect.y <= py < rect.y + rect.height && rect.x + rect.width <= px && px - (rect.x
        + rect.width - 1) <= n {
        sample_at(samples, w, rect.x + rect.width - 1, py, c)
    } else if rect.x <= px < rect.x + rect.width && py < rect.y && rect.y - py <= n {
        sample_at(samples, w, px, rect.y as int, c)
    } else if rect.x <= px < rect.x + rect.width && rect.y + rect.height <= py && py - (rect.y
        + rect.height - 1) <= n {
        sample_at(samples, w, px, rect.y + rect.height - 1, c)
    } else {
        sample_at(samples, w, px, py, c)
    }
}

/// A whole buffer after edge extrusion.
pub open spec fn extrude_samples(samples: Seq<u8>, w: int, rect: Rect, n: int) -> Seq<u8> {
    Seq::new(
        samples.len(),
        |i: int|
            {
                let y = i / (w * 4);
                let r = i % (w * 4);
                let x = r / 4;
                let c = r % 4;
                extrude_sample_at(samples, w, rect, n, x, y, c)
            },
    )
}

/// `bleed_channel`, read directly off a raw buffer of width `w` and
/// height `h`.
pub open spec fn bleed_sample_at(samples: Seq<u8>, w: int, h: int, px: int, py: int, c: int) -> u8 {
    if sample_opaque(samples, w, px, py) || c == 3 {
        sample_at(samples, w, px, py, c)
    } else if py > 0 && sample_opaque(samples, w, px, py - 1) {
        sample_at(samples, w, px, py - 1, c)
    } else if px > 0 && sample_opaque(samples, w, px - 1, py) {
        sample_at(samples, w, px - 1, py, c)
    } else if px + 1 < w && sample_opaque(samples, w, px + 1, py) {
        sample_at(samples, w, px + 1, py, c)
    } else if py + 1 < h && sample_opaque(samples, w, px, py + 1) {
        sample_at(samples, w, px, py + 1, c)
    } else {
        sample_at(samples, w, px, py, c)
    }
}

/// A whole buffer after one alpha-bleed pass.
pub open spec fn bleed_samples(samples: Seq<u8>, w: int, h: int) -> Seq<u8> {
    Seq::new(
        samples.len(),
        |i: int|
            {
                let y = i / (w * 4);
                let r = i % (w * 4);
                let x = r / 4;
                let c = r % 4;
                bleed_sample_at(samples, w, h, x, y, c)
            },
    )
}

} // verus!
