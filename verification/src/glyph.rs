//! The menu-bar icon: a clipboard drawn as an alpha-only 44x44 RGBA template image.
use vstd::prelude::*;

verus! {

/// Side of the icon in pixels.
pub const GLYPH_SIZE: usize = 44;

/// Byte offset of channel `c` of pixel `(x, y)` in the RGBA buffer.
pub open spec fn px(x: int, y: int, c: int) -> int {
    (y * 44 + x) * 4 + c
}

/// A rounded rectangle `[x0, x1) x [y0, y1)` with corner radius `corner`, drawn opaque
/// (`on`) or cleared.
pub struct Fill {
    pub x0: usize,
    pub y0: usize,
    pub x1: usize,
    pub y1: usize,
    pub corner: usize,
    pub on: bool,
}

/// The shapes of the icon, in drawing order: the board, its punched-out inside, the
/// clip tab, and three lines of text.
pub open spec fn glyph_fills() -> Seq<(int, int, int, int, int, bool)> {
    seq![
        (8, 8, 36, 40, 6, true),
        (11, 11, 33, 37, 4, false),
        (16, 4, 28, 13, 3, true),
        (15, 18, 29, 21, 1, true),
        (15, 24, 29, 27, 1, true),
        (15, 30, 25, 33, 1, true),
    ]
}

/// Distance of `v` past the rounded band of `[lo, hi)` with radius `r`.
pub open spec fn overhang(v: int, lo: int, hi: int, r: int) -> int {
    if v < lo + r {
        lo + r - v
    } else if v >= hi - r {
        v + 1 - (hi - r)
    } else {
        0
    }
}

/// Pixel `(x, y)` lies inside the rounded rectangle `f`.
pub open spec fn covers(f: (int, int, int, int, int, bool), x: int, y: int) -> bool {
    let (x0, y0, x1, y1, r, _on) = f;
    &&& x0 <= x < x1
    &&& y0 <= y < y1
    &&& overhang(x, x0, x1, r) * overhang(x, x0, x1, r) + overhang(y, y0, y1, r) * overhang(
        y,
        y0,
        y1,
        r,
    ) <= r * r
}

/// Alpha of pixel `(x, y)` after the first `k` shapes are drawn on a clear canvas.
pub open spec fn alpha_after(k: int, x: int, y: int) -> u8
    decreases k,
{
    if k <= 0 {
        0
    } else if covers(glyph_fills()[k - 1], x, y) {
        if glyph_fills()[k - 1].5 {
            255
        } else {
            0
        }
    } else {
        alpha_after(k - 1, x, y)
    }
}

/// Channel `c` of pixel `(x, y)` of the finished icon: black, with the drawn alpha.
pub open spec fn glyph_channel(x: int, y: int, c: int) -> u8 {
    if c == 3 {
        alpha_after(6, x, y)
    } else {
        0
    }
}

pub open spec fn in_grid(x: int, y: int, c: int) -> bool {
    0 <= x < 44 && 0 <= y < 44 && 0 <= c < 4
}

proof fn lemma_px(x: int, y: int, c: int, x2: int, y2: int, c2: int)
    requires
        in_grid(x, y, c),
        in_grid(x2, y2, c2),
    ensures
        0 <= px(x, y, c) < 7744,
        px(x, y, c) == px(x2, y2, c2) ==> x == x2 && y == y2 && c == c2,
{
}

/// Sets the four bytes of pixel `(x, y)` to black with alpha `a`.
fn set_pixel(rgba: &mut Vec<u8>, x: usize, y: usize, a: u8)
    requires
        old(rgba)@.len() == 7744,
        x < 44,
        y < 44,
    ensures
        final(rgba)@.len() == 7744,
        forall|x2: int, y2: int, c2: int|
            in_grid(x2, y2, c2) ==> #[trigger] final(rgba)@[px(x2, y2, c2)] == (if x2 == x && y2
                == y {
                if c2 == 3 {
                    a
                } else {
                    0u8
                }
            } else {
                old(rgba)@[px(x2, y2, c2)]
            }),
{
    let i = (y * 44 + x) * 4;
    rgba.set(i, 0);
    rgba.set(i + 1, 0);
    rgba.set(i + 2, 0);
    rgba.set(i + 3, a);
    assert forall|x2: int, y2: int, c2: int| in_grid(x2, y2, c2) implies #[trigger] rgba@[px(x2, y2, c2)]
        == (if x2 == x && y2 == y {
        if c2 == 3 {
            a
        } else {
            0u8
        }
    } else {
        old(rgba)@[px(x2, y2, c2)]
    }) by {
        lemma_px(x2, y2, c2, x as int, y as int, 0);
        lemma_px(x2, y2, c2, x as int, y as int, 1);
        lemma_px(x2, y2, c2, x as int, y as int, 2);
        lemma_px(x2, y2, c2, x as int, y as int, 3);
    }
}

/// Whether pixel `(x, y)` is inside `f` (bounds and rounded corners).
fn fill_covers(f: &Fill, x: usize, y: usize) -> (b: bool)
    requires
        f.x0 + f.corner <= f.x1 <= 44,
        f.y0 + f.corner <= f.y1 <= 44,
        f.corner <= 8,
        x < 44,
        y < 44,
    ensures
        b == covers(
            (f.x0 as int, f.y0 as int, f.x1 as int, f.y1 as int, f.corner as int, f.on),
            x as int,
            y as int,
        ),
{
    if x < f.x0 || x >= f.x1 || y < f.y0 || y >= f.y1 {
        return false;
    }
    let dx: usize = if x < f.x0 + f.corner {
        f.x0 + f.corner - x
    } else if x >= f.x1 - f.corner {
        x + 1 - (f.x1 - f.corner)
    } else {
        0
    };
    let dy: usize = if y < f.y0 + f.corner {
        f.y0 + f.corner - y
    } else if y >= f.y1 - f.corner {
        y + 1 - (f.y1 - f.corner)
    } else {
        0
    };
    assert(dx <= 8 && dy <= 8);
    assert(dx * dx <= 64) by (nonlinear_arith)
        requires
            dx <= 8,
    ;
    assert(dy * dy <= 64) by (nonlinear_arith)
        requires
            dy <= 8,
    ;
    assert(f.corner * f.corner <= 64) by (nonlinear_arith)
        requires
            f.corner <= 8,
    ;
    dx * dx + dy * dy <= f.corner * f.corner
}

/// Draws `f` onto `rgba`: every pixel it covers becomes black with alpha 255 (`on`) or
/// 0; every other pixel is left alone.
fn draw(rgba: &mut Vec<u8>, f: &Fill)
    requires
        old(rgba)@.len() == 7744,
        f.x0 + f.corner <= f.x1 <= 44,
        f.y0 + f.corner <= f.y1 <= 44,
        f.corner <= 8,
    ensures
        final(rgba)@.len() == 7744,
        forall|x: int, y: int, c: int|
            in_grid(x, y, c) ==> #[trigger] final(rgba)@[px(x, y, c)] == (if covers(
                (f.x0 as int, f.y0 as int, f.x1 as int, f.y1 as int, f.corner as int, f.on),
                x,
                y,
            ) {
                if c == 3 {
                    if f.on {
                        255u8
                    } else {
                        0u8
                    }
                } else {
                    0u8
                }
            } else {
                old(rgba)@[px(x, y, c)]
            }),
{
    let ghost fs = (f.x0 as int, f.y0 as int, f.x1 as int, f.y1 as int, f.corner as int, f.on);
    let ghost start = rgba@;
    let a: u8 = if f.on {
        255
    } else {
        0
    };
    let mut y: usize = 0;
    while y < 44
        invariant
            y <= 44,
            rgba@.len() == 7744,
            f.x0 + f.corner <= f.x1 <= 44,
            f.y0 + f.corner <= f.y1 <= 44,
            f.corner <= 8,
            fs == (f.x0 as int, f.y0 as int, f.x1 as int, f.y1 as int, f.corner as int, f.on),
            a == (if f.on { 255u8 } else { 0u8 }),
            forall|x2: int, y2: int, c2: int|
                in_grid(x2, y2, c2) ==> #[trigger] rgba@[px(x2, y2, c2)] == (if y2 < y && covers(
                    fs,
                    x2,
                    y2,
                ) {
                    if c2 == 3 {
                        a
                    } else {
                        0u8
                    }
                } else {
                    start[px(x2, y2, c2)]
                }),
        decreases 44 - y,
    {
        let mut x: usize = 0;
        while x < 44
            invariant
                y < 44,
                x <= 44,
                rgba@.len() == 7744,
                f.x0 + f.corner <= f.x1 <= 44,
                f.y0 + f.corner <= f.y1 <= 44,
                f.corner <= 8,
                fs == (f.x0 as int, f.y0 as int, f.x1 as int, f.y1 as int, f.corner as int, f.on),
                a == (if f.on { 255u8 } else { 0u8 }),
                forall|x2: int, y2: int, c2: int|
                    in_grid(x2, y2, c2) ==> #[trigger] rgba@[px(x2, y2, c2)] == (if (y2 < y || (
                    y2 == y && x2 < x)) && covers(fs, x2, y2) {
                        if c2 == 3 {
                            a
                        } else {
                            0u8
                        }
                    } else {
                        start[px(x2, y2, c2)]
                    }),
            decreases 44 - x,
        {
            if fill_covers(f, x, y) {
                set_pixel(rgba, x, y, a);
            }
            x = x + 1;
        }
        y = y + 1;
    }
}

/// The icon's pixels, row by row, four bytes (RGBA) per pixel.
pub fn tray_glyph_rgba() -> (rgba: Vec<u8>)
    ensures
        rgba@.len() == 7744,
        forall|x: int, y: int, c: int|
            in_grid(x, y, c) ==> #[trigger] rgba@[px(x, y, c)] == glyph_channel(x, y, c),
{
    let mut rgba: Vec<u8> = Vec::new();
    let mut i: usize = 0;
    while i < 7744
        invariant
            i <= 7744,
            rgba@.len() == i,
            forall|k: int| 0 <= k < i ==> #[trigger] rgba@[k] == 0u8,
        decreases 7744 - i,
    {
        rgba.push(0u8);
        i = i + 1;
    }
    assert forall|x: int, y: int, c: int| in_grid(x, y, c) implies #[trigger] rgba@[px(x, y, c)]
        == (if c == 3 { alpha_after(0, x, y) } else { 0u8 }) by {
        lemma_px(x, y, c, x, y, c);
    }
    draw(&mut rgba, &Fill { x0: 8, y0: 8, x1: 36, y1: 40, corner: 6, on: true });
    draw(&mut rgba, &Fill { x0: 11, y0: 11, x1: 33, y1: 37, corner: 4, on: false });
    draw(&mut rgba, &Fill { x0: 16, y0: 4, x1: 28, y1: 13, corner: 3, on: true });
    draw(&mut rgba, &Fill { x0: 15, y0: 18, x1: 29, y1: 21, corner: 1, on: true });
    draw(&mut rgba, &Fill { x0: 15, y0: 24, x1: 29, y1: 27, corner: 1, on: true });
    draw(&mut rgba, &Fill { x0: 15, y0: 30, x1: 25, y1: 33, corner: 1, on: true });
    assert forall|x: int, y: int, c: int| in_grid(x, y, c) implies #[trigger] rgba@[px(x, y, c)]
        == glyph_channel(x, y, c) by {
        assert(glyph_fills()[0] == (8int, 8int, 36int, 40int, 6int, true));
        assert(glyph_fills()[1] == (11int, 11int, 33int, 37int, 4int, false));
        assert(glyph_fills()[2] == (16int, 4int, 28int, 13int, 3int, true));
        assert(glyph_fills()[3] == (15int, 18int, 29int, 21int, 1int, true));
        assert(glyph_fills()[4] == (15int, 24int, 29int, 27int, 1int, true));
        assert(glyph_fills()[5] == (15int, 30int, 25int, 33int, 1int, true));
        reveal_with_fuel(alpha_after, 7);
    }
    rgba
}

} // verus!
