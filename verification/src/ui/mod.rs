pub mod omnibox;

use vstd::prelude::*;
use crate::text::{chars_of, strings_view};

verus! {

/// Height in pixels of the tab bar.
pub const TABBAR_HEIGHT: u32 = 32;

/// Height in pixels of the address bar.
pub const OMNIBOX_HEIGHT: u32 = 32;

/// Height in pixels of the browser chrome above the page.
pub const CHROME_HEIGHT: u32 = 64;

/// Paints the writes `ws` (pixel index, colour) onto `buf` in order; writes
/// outside the buffer are skipped.
pub open spec fn apply_writes(buf: Seq<u32>, ws: Seq<(int, u32)>) -> Seq<u32>
    decreases ws.len(),
{
    if ws.len() == 0 {
        buf
    } else {
        let b = apply_writes(buf, ws.drop_last());
        let p = ws.last().0;
        if 0 <= p < b.len() {
            b.update(p, ws.last().1)
        } else {
            b
        }
    }
}

pub proof fn lemma_apply_len(buf: Seq<u32>, ws: Seq<(int, u32)>)
    ensures
        apply_writes(buf, ws).len() == buf.len(),
    decreases ws.len(),
{
    if ws.len() > 0 {
        lemma_apply_len(buf, ws.drop_last());
    }
}

/// Painting two lists of writes one after the other is painting their concatenation.
pub proof fn lemma_apply_concat(buf: Seq<u32>, a: Seq<(int, u32)>, b: Seq<(int, u32)>)
    ensures
        apply_writes(buf, a + b) == apply_writes(apply_writes(buf, a), b),
    decreases b.len(),
{
    if b.len() == 0 {
        assert(a + b =~= a);
    } else {
        assert((a + b).drop_last() =~= a + b.drop_last());
        assert((a + b).last() == b.last());
        lemma_apply_concat(buf, a, b.drop_last());
    }
}

pub proof fn lemma_apply_push(buf: Seq<u32>, a: Seq<(int, u32)>, w: (int, u32))
    ensures
        apply_writes(buf, a.push(w)) == (if 0 <= w.0 < buf.len() {
            apply_writes(buf, a).update(w.0, w.1)
        } else {
            apply_writes(buf, a)
        }),
{
    assert(a.push(w).drop_last() =~= a);
    lemma_apply_len(buf, a);
}

/// Writes of `colour` at `offset, offset + 1, ..., offset + n - 1`.
pub open spec fn row_writes(offset: int, n: nat, color: u32) -> Seq<(int, u32)>
    decreases n,
{
    if n == 0 {
        Seq::empty()
    } else {
        row_writes(offset, (n - 1) as nat, color).push((offset + n - 1, color))
    }
}

/// Writes that fill `h` rows of `w` pixels from column `x` of row `y`, row by row,
/// in a buffer whose rows are `bw` pixels wide.
pub open spec fn rect_writes(bw: int, x: int, y: int, w: nat, h: nat, color: u32) -> Seq<(int, u32)>
    decreases h,
{
    if h == 0 {
        Seq::empty()
    } else {
        rect_writes(bw, x, y, w, (h - 1) as nat, color) + row_writes((y + h - 1) * bw + x, w, color)
    }
}

/// The pixel indices that filling the rectangle computes fit in `usize`.
pub open spec fn rect_ok(bw: usize, x: usize, y: usize, w: usize, h: usize) -> bool {
    &&& y + h <= usize::MAX
    &&& h > 0 ==> (y + h - 1) * bw + x + (if w > 0 {
        w - 1
    } else {
        0
    }) <= usize::MAX
}

/// Fills a `w` by `h` rectangle at (`x`, `y`) with `color`, skipping pixels past the end of the buffer.
pub fn clear_rect(buffer: &mut [u32], buf_width: usize, x: usize, y: usize, w: usize, h: usize, color: u32)
    requires
        rect_ok(buf_width, x, y, w, h),
    ensures
        final(buffer)@ == apply_writes(old(buffer)@, rect_writes(buf_width as int, x as int, y as int, w as nat, h as nat, color)),
{
    let end = y + h;
    let mut row = y;
    while row < end
        invariant
            y <= row <= end == y + h,
            rect_ok(buf_width, x, y, w, h),
            buffer@.len() == old(buffer)@.len(),
            buffer@ == apply_writes(old(buffer)@, rect_writes(buf_width as int, x as int, y as int, w as nat, (row - y) as nat, color)),
        decreases end - row,
    {
        proof {
            vstd::arithmetic::mul::lemma_mul_inequality(row as int, (y + h - 1) as int, buf_width as int);
        }
        let offset = row * buf_width + x;
        let ghost done = rect_writes(buf_width as int, x as int, y as int, w as nat, (row - y) as nat, color);
        let mut col: usize = 0;
        while col < w
            invariant
                y <= row < end == y + h,
                rect_ok(buf_width, x, y, w, h),
                offset == row * buf_width + x,
                offset + (if w > 0 { w - 1 } else { 0 }) <= usize::MAX,
                col <= w,
                buffer@.len() == old(buffer)@.len(),
                buffer@ == apply_writes(old(buffer)@, done + row_writes(offset as int, col as nat, color)),
            decreases w - col,
        {
            proof {
                lemma_apply_push(old(buffer)@, done + row_writes(offset as int, col as nat, color), (offset + col, color));
                assert(done + row_writes(offset as int, col as nat + 1, color) =~= (done + row_writes(offset as int, col as nat, color)).push((offset + col, color)));
                lemma_apply_len(old(buffer)@, done + row_writes(offset as int, col as nat, color));
            }
            if offset + col < buffer.len() {
                buffer[offset + col] = color;
            }
            col = col + 1;
        }
        proof {
            assert((row + 1 - y) as nat - 1 == (row - y) as nat);
            assert(rect_writes(buf_width as int, x as int, y as int, w as nat, (row + 1 - y) as nat, color) == done + row_writes(offset as int, w as nat, color));
        }
        row = row + 1;
    }
}


/// Painting `n` writes of `color` from `offset` colours exactly the pixels of the buffer in
/// `offset..offset + n`.
pub proof fn lemma_row_writes(buf: Seq<u32>, offset: int, n: nat, color: u32, i: int)
    requires
        0 <= i < buf.len(),
    ensures
        apply_writes(buf, row_writes(offset, n, color))[i] == (if offset <= i < offset + n {
            color
        } else {
            buf[i]
        }),
    decreases n,
{
    if n > 0 {
        lemma_row_writes(buf, offset, (n - 1) as nat, color, i);
        lemma_apply_push(buf, row_writes(offset, (n - 1) as nat, color), (offset + n - 1, color));
        lemma_apply_len(buf, row_writes(offset, (n - 1) as nat, color));
    }
}

/// Pixel `i` lies in the `w` by `h` rectangle at (`x`, `y`) of a buffer `bw` pixels wide.
pub open spec fn in_rect(i: int, bw: int, x: int, y: int, w: int, h: int) -> bool {
    &&& y <= i / bw < y + h
    &&& x <= i % bw < x + w
}

pub proof fn lemma_row_span(i: int, bw: int, r: int, x: int, w: int)
    requires
        bw > 0,
        0 <= x,
        0 <= w,
        x + w <= bw,
    ensures
        (r * bw + x <= i < r * bw + x + w) <==> (i / bw == r && x <= i % bw < x + w),
{
    vstd::arithmetic::div_mod::lemma_fundamental_div_mod(i, bw);
    vstd::arithmetic::div_mod::lemma_mod_bound(i, bw);
    if r * bw + x <= i < r * bw + x + w {
        vstd::arithmetic::div_mod::lemma_fundamental_div_mod_converse(i, bw, r, i - r * bw);
    }
    if i / bw == r && x <= i % bw < x + w {
        assert(i == bw * (i / bw) + i % bw);
        assert(bw * r == r * bw) by (nonlinear_arith);
    }
}

/// Filling a rectangle that fits in the width of the buffer colours exactly the pixels
/// inside it and leaves every other pixel as it was.
pub proof fn law_fill_rect(buf: Seq<u32>, bw: int, x: int, y: int, w: nat, h: nat, color: u32, i: int)
    requires
        bw > 0,
        0 <= x,
        0 <= y,
        x + w <= bw,
        0 <= i < buf.len(),
    ensures
        apply_writes(buf, rect_writes(bw, x, y, w, h, color))[i] == (if in_rect(i, bw, x, y, w as int, h as int) {
            color
        } else {
            buf[i]
        }),
    decreases h,
{
    if h > 0 {
        let prev = rect_writes(bw, x, y, w, (h - 1) as nat, color);
        let r = y + h - 1;
        law_fill_rect(buf, bw, x, y, w, (h - 1) as nat, color, i);
        lemma_apply_concat(buf, prev, row_writes(r * bw + x, w, color));
        lemma_apply_len(buf, prev);
        lemma_row_writes(apply_writes(buf, prev), r * bw + x, w, color, i);
        lemma_row_span(i, bw, r, x, w as int);
    }
}

/// Whether column `col` (0 = leftmost) of a glyph row is lit.
pub open spec fn pixel_on(bits: u8, col: int) -> bool {
    (bits & (1u8 << ((7 - col) as u8))) != 0
}

/// Writes for the lit pixels among the first `n` columns of a glyph row starting at `offset`.
pub open spec fn bit_writes(offset: int, bits: u8, n: nat, color: u32) -> Seq<(int, u32)>
    decreases n,
{
    if n == 0 {
        Seq::empty()
    } else {
        let p = bit_writes(offset, bits, (n - 1) as nat, color);
        if pixel_on(bits, n - 1) {
            p.push((offset + n - 1, color))
        } else {
            p
        }
    }
}

/// Writes for the first `r` rows of an 8-pixel-wide glyph drawn at (`x`, `y`).
pub open spec fn glyph_writes(bw: int, x: int, y: int, glyph: Seq<u8>, color: u32, r: nat) -> Seq<(int, u32)>
    decreases r,
{
    if r == 0 {
        Seq::empty()
    } else {
        glyph_writes(bw, x, y, glyph, color, (r - 1) as nat) + bit_writes(
            (y + r - 1) * bw + x,
            glyph[r - 1],
            8,
            color,
        )
    }
}

/// The font entry used for `c`: its code point, or `?` outside ASCII.
pub open spec fn glyph_code(c: char) -> int {
    if (c as u32) < 128 {
        c as u32 as int
    } else {
        63
    }
}

/// Writes that draw `c` at (`x`, `y`) with an 8x16 bitmap font.
pub open spec fn char_writes(font: Seq<[u8; 16]>, bw: int, x: int, y: int, c: char, color: u32) -> Seq<(int, u32)> {
    glyph_writes(bw, x, y, font[glyph_code(c)]@, color, 16)
}

/// The pixel indices that drawing `glyph` at (`x`, `y`) computes fit in `usize`.
pub open spec fn glyph_ok(bw: int, x: int, y: int, glyph: Seq<u8>) -> bool {
    &&& y + 15 <= usize::MAX
    &&& (y + 15) * bw + x <= usize::MAX
    &&& forall|r: int, col: int|
        0 <= r < 16 && 0 <= col < 8 && #[trigger] pixel_on(glyph[r], col) ==> (y + r) * bw + x + col
            <= usize::MAX
}

pub open spec fn char_ok(font: Seq<[u8; 16]>, bw: int, x: int, y: int, c: char) -> bool {
    glyph_ok(bw, x, y, font[glyph_code(c)]@)
}

/// Draws `c` at (`x`, `y`) in `color` with the 8x16 bitmap `font` (indexed by code point),
/// skipping pixels past the end of the buffer.
pub fn draw_char(buffer: &mut [u32], buf_width: usize, x: usize, y: usize, c: char, color: u32, font: &[[u8; 16]])
    requires
        font@.len() >= 128,
        char_ok(font@, buf_width as int, x as int, y as int, c),
    ensures
        final(buffer)@ == apply_writes(old(buffer)@, char_writes(font@, buf_width as int, x as int, y as int, c, color)),
{
    let mut code: u32 = c as u32;
    if code >= 128 {
        code = 63;
    }
    let glyph: [u8; 16] = font[code as usize];
    let ghost g = glyph@;
    assert(g == font@[glyph_code(c)]@);
    let mut row_idx: usize = 0;
    while row_idx < 16
        invariant
            row_idx <= 16,
            g == glyph@,
            g.len() == 16,
            glyph_ok(buf_width as int, x as int, y as int, g),
            buffer@.len() == old(buffer)@.len(),
            buffer@ == apply_writes(old(buffer)@, glyph_writes(buf_width as int, x as int, y as int, g, color, row_idx as nat)),
        decreases 16 - row_idx,
    {
        let row_val = glyph[row_idx];
        let py = y + row_idx;
        proof {
            vstd::arithmetic::mul::lemma_mul_inequality(py as int, y + 15, buf_width as int);
        }
        let offset = py * buf_width + x;
        let ghost done = glyph_writes(buf_width as int, x as int, y as int, g, color, row_idx as nat);
        let mut col: u8 = 0;
        while col < 8
            invariant
                row_idx < 16,
                g == glyph@,
                g.len() == 16,
                row_val == g[row_idx as int],
                glyph_ok(buf_width as int, x as int, y as int, g),
                offset == (y + row_idx) * buf_width + x,
                col <= 8,
                buffer@.len() == old(buffer)@.len(),
                buffer@ == apply_writes(old(buffer)@, done + bit_writes(offset as int, row_val, col as nat, color)),
            decreases 8 - col,
        {
            let ghost cur = done + bit_writes(offset as int, row_val, col as nat, color);
            if (row_val & (1u8 << (7 - col))) != 0 {
                proof {
                    assert(pixel_on(g[row_idx as int], col as int));
                    lemma_apply_push(old(buffer)@, cur, (offset + col, color));
                    lemma_apply_len(old(buffer)@, cur);
                    assert(done + bit_writes(offset as int, row_val, col as nat + 1, color) =~= cur.push((offset + col, color)));
                }
                let px = offset + col as usize;
                if px < buffer.len() {
                    buffer[px] = color;
                }
            } else {
                proof {
                    assert(!pixel_on(row_val, col as int));
                    assert(done + bit_writes(offset as int, row_val, col as nat + 1, color) =~= cur);
                }
            }
            col = col + 1;
        }
        proof {
            assert((row_idx + 1) as nat - 1 == row_idx as nat);
            assert(glyph_writes(buf_width as int, x as int, y as int, g, color, (row_idx + 1) as nat) == done + bit_writes(offset as int, row_val, 8, color));
        }
        row_idx = row_idx + 1;
    }
}


/// Width in pixels of one character of the bitmap font.
pub const CHAR_WIDTH: usize = 8;

/// Writes that draw `text[i..]` from column `x + 8 * i`: characters that would pass
/// `x + max_width` are cut, and when at least two characters were drawn before the cut,
/// the last two drawn places show `..` instead.
pub open spec fn string_writes_from(
    font: Seq<[u8; 16]>,
    bw: int,
    x: int,
    y: int,
    text: Seq<char>,
    color: u32,
    max_width: int,
    i: int,
) -> Seq<(int, u32)>
    decreases text.len() - i,
{
    if i < 0 || i >= text.len() {
        Seq::empty()
    } else {
        let cx = x + 8 * i;
        if cx + 8 > x + max_width {
            if cx >= x + 16 {
                char_writes(font, bw, cx - 16, y, '.', color) + char_writes(font, bw, cx - 8, y, '.', color)
            } else {
                Seq::empty()
            }
        } else {
            char_writes(font, bw, cx, y, text[i], color) + string_writes_from(font, bw, x, y, text, color, max_width, i + 1)
        }
    }
}

pub open spec fn string_writes(font: Seq<[u8; 16]>, bw: int, x: int, y: int, text: Seq<char>, color: u32, max_width: int) -> Seq<(int, u32)> {
    string_writes_from(font, bw, x, y, text, color, max_width, 0)
}

/// The pixel indices that drawing `text[i..]` computes fit in `usize`.
pub open spec fn string_ok_from(font: Seq<[u8; 16]>, bw: int, x: int, y: int, text: Seq<char>, max_width: int, i: int) -> bool
    decreases text.len() - i,
{
    if i < 0 || i >= text.len() {
        true
    } else {
        let cx = x + 8 * i;
        &&& x + max_width <= usize::MAX
        &&& cx + 8 <= usize::MAX
        &&& if cx + 8 > x + max_width {
            cx >= x + 16 ==> char_ok(font, bw, cx - 16, y, '.') && char_ok(font, bw, cx - 8, y, '.')
        } else {
            char_ok(font, bw, cx, y, text[i]) && string_ok_from(font, bw, x, y, text, max_width, i + 1)
        }
    }
}

/// Draws `text` from (`x`, `y`), cutting it at `max_width` pixels: nothing is drawn
/// outside columns `x .. x + max_width` (see `law_string_within_width`).
pub fn draw_string(
    buffer: &mut [u32],
    buf_width: usize,
    x: usize,
    y: usize,
    text: &str,
    color: u32,
    max_width: usize,
    font: &[[u8; 16]],
)
    requires
        font@.len() >= 128,
        string_ok_from(font@, buf_width as int, x as int, y as int, text@, max_width as int, 0),
    ensures
        final(buffer)@ == apply_writes(old(buffer)@, string_writes(font@, buf_width as int, x as int, y as int, text@, color, max_width as int)),
{
    let chars = chars_of(text);
    let mut current_x = x;
    let mut i: usize = 0;
    let ghost total = string_writes(font@, buf_width as int, x as int, y as int, text@, color, max_width as int);
    while i < chars.len() && current_x + CHAR_WIDTH <= x + max_width
        invariant
            chars@ == text@,
            font@.len() >= 128,
            i <= chars.len(),
            current_x == x + 8 * i,
            string_ok_from(font@, buf_width as int, x as int, y as int, text@, max_width as int, i as int),
            apply_writes(old(buffer)@, total) == apply_writes(buffer@, string_writes_from(font@, buf_width as int, x as int, y as int, text@, color, max_width as int, i as int)),
        decreases chars.len() - i,
    {
        let c = chars[i];
        let ghost before = buffer@;
        draw_char(buffer, buf_width, current_x, y, c, color, font);
        proof {
            lemma_apply_concat(before, char_writes(font@, buf_width as int, current_x as int, y as int, c, color), string_writes_from(font@, buf_width as int, x as int, y as int, text@, color, max_width as int, i + 1));
        }
        current_x = current_x + CHAR_WIDTH;
        i = i + 1;
    }
    let ghost before = buffer@;
    let ghost rest = string_writes_from(font@, buf_width as int, x as int, y as int, text@, color, max_width as int, i as int);
    if i < chars.len() && current_x - x >= 16 {
        draw_char(buffer, buf_width, current_x - 16, y, '.', color, font);
        draw_char(buffer, buf_width, current_x - 8, y, '.', color, font);
        proof {
            lemma_apply_concat(before, char_writes(font@, buf_width as int, current_x - 16, y as int, '.', color), char_writes(font@, buf_width as int, current_x - 8, y as int, '.', color));
            assert(rest == char_writes(font@, buf_width as int, current_x - 16, y as int, '.', color) + char_writes(font@, buf_width as int, current_x - 8, y as int, '.', color));
        }
    } else {
        assert(rest == Seq::<(int, u32)>::empty());
    }
}


pub proof fn lemma_glyph_ok(bw: int, x: int, y: int, glyph: Seq<u8>)
    requires
        0 <= bw,
        0 <= x,
        0 <= y,
        y + 15 <= usize::MAX,
        (y + 15) * bw + x + 7 <= usize::MAX,
    ensures
        glyph_ok(bw, x, y, glyph),
{
    assert forall|r: int, col: int|
        0 <= r < 16 && 0 <= col < 8 && #[trigger] pixel_on(glyph[r], col) implies (y + r) * bw + x
        + col <= usize::MAX by {
        vstd::arithmetic::mul::lemma_mul_inequality(y + r, y + 15, bw);
    }
    vstd::arithmetic::mul::lemma_mul_inequality(y, y + 15, bw);
}

/// Drawing a string is safe when every column it can reach, plus a glyph, fits in `usize`.
pub proof fn lemma_string_ok(font: Seq<[u8; 16]>, bw: int, x: int, y: int, text: Seq<char>, mw: int, i: int)
    requires
        font.len() >= 128,
        0 <= bw,
        0 <= x,
        0 <= y,
        0 <= mw,
        0 <= i,
        i == 0 || 8 * i <= mw,
        y + 15 <= usize::MAX,
        (y + 15) * bw + x + mw + 7 <= usize::MAX,
        x + mw + 8 <= usize::MAX,
    ensures
        string_ok_from(font, bw, x, y, text, mw, i),
    decreases text.len() - i,
{
    if i < text.len() {
        let cx = x + 8 * i;
        if cx + 8 > x + mw {
            if cx >= x + 16 {
                lemma_glyph_ok(bw, cx - 16, y, font[glyph_code('.')]@);
                lemma_glyph_ok(bw, cx - 8, y, font[glyph_code('.')]@);
            }
        } else {
            lemma_glyph_ok(bw, cx, y, font[glyph_code(text[i])]@);
            lemma_string_ok(font, bw, x, y, text, mw, i + 1);
        }
    }
}

/// A pixel that painting `ws` changes is the target of one of the writes.
pub proof fn lemma_apply_changed(buf: Seq<u32>, ws: Seq<(int, u32)>, p: int)
    requires
        0 <= p < buf.len(),
        apply_writes(buf, ws)[p] != buf[p],
    ensures
        exists|k: int| 0 <= k < ws.len() && (#[trigger] ws[k]).0 == p,
    decreases ws.len(),
{
    if ws.len() > 0 {
        let prev = ws.drop_last();
        lemma_apply_len(buf, prev);
        if ws.last().0 == p {
            assert(ws[ws.len() - 1].0 == p);
        } else {
            assert(apply_writes(buf, prev)[p] == apply_writes(buf, ws)[p]);
            lemma_apply_changed(buf, prev, p);
            let k = choose|k: int| 0 <= k < prev.len() && (#[trigger] prev[k]).0 == p;
            assert(ws[k] == prev[k]);
        }
    }
}

/// Index of the pixel in row `row` and column `col` of a buffer `bw` pixels wide.
pub open spec fn pixel_index(bw: int, row: int, col: int) -> int {
    row * bw + col
}

/// Pixel index `p` lies in rows `y0 .. y1` and columns `x0 .. x1` of a buffer `bw`
/// pixels wide.
pub open spec fn in_box(p: int, bw: int, y0: int, y1: int, x0: int, x1: int) -> bool {
    exists|r: int, c: int| y0 <= r < y1 && x0 <= c < x1 && p == #[trigger] pixel_index(bw, r, c)
}

/// Every write of `ws` lies in the box `in_box(_, bw, y0, y1, x0, x1)`.
pub open spec fn writes_in_box(ws: Seq<(int, u32)>, bw: int, y0: int, y1: int, x0: int, x1: int) -> bool {
    forall|k: int| 0 <= k < ws.len() ==> in_box((#[trigger] ws[k]).0, bw, y0, y1, x0, x1)
}

/// A pixel that no write of `ws` targets keeps its value.
pub proof fn lemma_apply_untouched(buf: Seq<u32>, ws: Seq<(int, u32)>, p: int)
    requires
        0 <= p < buf.len(),
        forall|k: int| 0 <= k < ws.len() ==> (#[trigger] ws[k]).0 != p,
    ensures
        apply_writes(buf, ws)[p] == buf[p],
{
    if apply_writes(buf, ws)[p] != buf[p] {
        lemma_apply_changed(buf, ws, p);
    }
}

/// Row and column of a pixel are unique when columns stay inside the row.
proof fn lemma_pixel_unique(bw: int, r1: int, c1: int, r2: int, c2: int)
    requires
        0 <= c1 < bw,
        0 <= c2 < bw,
        pixel_index(bw, r1, c1) == pixel_index(bw, r2, c2),
    ensures
        r1 == r2,
        c1 == c2,
{
    if r1 < r2 {
        assert((r2 - r1) * bw >= bw) by (nonlinear_arith)
            requires r2 - r1 >= 1, bw > 0;
        assert(r2 * bw == r1 * bw + (r2 - r1) * bw) by (nonlinear_arith);
    } else if r2 < r1 {
        assert((r1 - r2) * bw >= bw) by (nonlinear_arith)
            requires r1 - r2 >= 1, bw > 0;
        assert(r1 * bw == r2 * bw + (r1 - r2) * bw) by (nonlinear_arith);
    }
}

/// A pixel in row `r`, column `c` of the buffer is outside a box whose rows or columns
/// it misses, when the box's columns lie inside the row.
pub proof fn lemma_outside_box(bw: int, r: int, c: int, y0: int, y1: int, x0: int, x1: int)
    requires
        0 <= c < bw,
        0 <= x0,
        x1 <= bw,
        !(y0 <= r < y1 && x0 <= c < x1),
    ensures
        !in_box(pixel_index(bw, r, c), bw, y0, y1, x0, x1),
{
    if in_box(pixel_index(bw, r, c), bw, y0, y1, x0, x1) {
        let (r2, c2) = choose|r2: int, c2: int|
            y0 <= r2 < y1 && x0 <= c2 < x1 && pixel_index(bw, r, c) == #[trigger] pixel_index(bw, r2, c2);
        lemma_pixel_unique(bw, r, c, r2, c2);
    }
}

/// Painting writes that all lie in a box the pixel in row `r`, column `c` is outside
/// of leaves that pixel as it was.
pub proof fn lemma_apply_outside_box(
    buf: Seq<u32>,
    ws: Seq<(int, u32)>,
    bw: int,
    r: int,
    c: int,
    y0: int,
    y1: int,
    x0: int,
    x1: int,
)
    requires
        0 <= pixel_index(bw, r, c) < buf.len(),
        writes_in_box(ws, bw, y0, y1, x0, x1),
        0 <= c < bw,
        0 <= x0,
        x1 <= bw,
        !(y0 <= r < y1 && x0 <= c < x1),
    ensures
        apply_writes(buf, ws)[pixel_index(bw, r, c)] == buf[pixel_index(bw, r, c)],
{
    lemma_outside_box(bw, r, c, y0, y1, x0, x1);
    assert forall|k: int| 0 <= k < ws.len() implies (#[trigger] ws[k]).0 != pixel_index(bw, r, c) by {
        assert(in_box(ws[k].0, bw, y0, y1, x0, x1));
    }
    lemma_apply_untouched(buf, ws, pixel_index(bw, r, c));
}

pub proof fn lemma_box_concat(a: Seq<(int, u32)>, b: Seq<(int, u32)>, bw: int, y0: int, y1: int, x0: int, x1: int)
    requires
        writes_in_box(a, bw, y0, y1, x0, x1),
        writes_in_box(b, bw, y0, y1, x0, x1),
    ensures
        writes_in_box(a + b, bw, y0, y1, x0, x1),
{
    assert forall|k: int| 0 <= k < (a + b).len() implies in_box((#[trigger] (a + b)[k]).0, bw, y0, y1, x0, x1) by {
        if k < a.len() {
            assert((a + b)[k] == a[k]);
        } else {
            assert((a + b)[k] == b[k - a.len()]);
        }
    }
}

/// Writes in a box lie in any box around it (an empty box holds no write at all).
pub proof fn lemma_box_widen(
    ws: Seq<(int, u32)>,
    bw: int,
    b0: int,
    b1: int,
    a0: int,
    a1: int,
    y0: int,
    y1: int,
    x0: int,
    x1: int,
)
    requires
        writes_in_box(ws, bw, b0, b1, a0, a1),
        b0 < b1 && a0 < a1 ==> y0 <= b0 && b1 <= y1 && x0 <= a0 && a1 <= x1,
    ensures
        writes_in_box(ws, bw, y0, y1, x0, x1),
{
    assert forall|k: int| 0 <= k < ws.len() implies in_box((#[trigger] ws[k]).0, bw, y0, y1, x0, x1) by {
        assert(in_box(ws[k].0, bw, b0, b1, a0, a1));
        let (r, c) = choose|r: int, c: int|
            b0 <= r < b1 && a0 <= c < a1 && ws[k].0 == #[trigger] pixel_index(bw, r, c);
        assert(y0 <= r < y1 && x0 <= c < x1 && ws[k].0 == pixel_index(bw, r, c));
    }
}

proof fn lemma_row_box(bw: int, r: int, x: int, n: nat, color: u32)
    ensures
        writes_in_box(row_writes(r * bw + x, n, color), bw, r, r + 1, x, x + n),
    decreases n,
{
    if n > 0 {
        lemma_row_box(bw, r, x, (n - 1) as nat, color);
        let p = row_writes(r * bw + x, (n - 1) as nat, color);
        let ws = p.push((r * bw + x + n - 1, color));
        assert forall|k: int| 0 <= k < ws.len() implies in_box((#[trigger] ws[k]).0, bw, r, r + 1, x, x + n) by {
            if k < p.len() {
                assert(ws[k] == p[k]);
                assert(in_box(p[k].0, bw, r, r + 1, x, x + n - 1));
                let (r2, c2) = choose|r2: int, c2: int|
                    r <= r2 < r + 1 && x <= c2 < x + n - 1 && p[k].0 == #[trigger] pixel_index(bw, r2, c2);
                assert(ws[k].0 == pixel_index(bw, r2, c2));
            } else {
                assert(ws[k].0 == pixel_index(bw, r, x + n - 1));
            }
        }
    }
}

/// The writes that fill a rectangle lie in it.
pub proof fn lemma_rect_box(bw: int, x: int, y: int, w: nat, h: nat, color: u32)
    ensures
        writes_in_box(rect_writes(bw, x, y, w, h, color), bw, y, y + h, x, x + w),
    decreases h,
{
    if h > 0 {
        lemma_rect_box(bw, x, y, w, (h - 1) as nat, color);
        lemma_box_widen(rect_writes(bw, x, y, w, (h - 1) as nat, color), bw, y, y + h - 1, x, x + w, y, y + h, x, x + w);
        lemma_row_box(bw, y + h - 1, x, w, color);
        lemma_box_widen(row_writes((y + h - 1) * bw + x, w, color), bw, y + h - 1, y + h, x, x + w, y, y + h, x, x + w);
        lemma_box_concat(
            rect_writes(bw, x, y, w, (h - 1) as nat, color),
            row_writes((y + h - 1) * bw + x, w, color),
            bw,
            y,
            y + h,
            x,
            x + w,
        );
    }
}

proof fn lemma_bit_box(bw: int, x: int, r: int, bits: u8, n: nat, color: u32)
    requires
        n <= 8,
    ensures
        writes_in_box(bit_writes(r * bw + x, bits, n, color), bw, r, r + 1, x, x + 8),
    decreases n,
{
    if n > 0 {
        let offset = r * bw + x;
        lemma_bit_box(bw, x, r, bits, (n - 1) as nat, color);
        let p = bit_writes(offset, bits, (n - 1) as nat, color);
        if pixel_on(bits, n - 1) {
            let ws = p.push((offset + n - 1, color));
            assert forall|k: int| 0 <= k < ws.len() implies in_box((#[trigger] ws[k]).0, bw, r, r + 1, x, x + 8) by {
                if k < p.len() {
                    assert(ws[k] == p[k]);
                } else {
                    assert(ws[k].0 == pixel_index(bw, r, x + n - 1));
                }
            }
        }
    }
}

/// The writes that draw a glyph lie in its 8 by 16 box.
pub proof fn lemma_glyph_box(bw: int, x: int, y: int, glyph: Seq<u8>, color: u32, rows: nat)
    requires
        rows <= 16,
    ensures
        writes_in_box(glyph_writes(bw, x, y, glyph, color, rows), bw, y, y + 16, x, x + 8),
    decreases rows,
{
    if rows > 0 {
        lemma_glyph_box(bw, x, y, glyph, color, (rows - 1) as nat);
        lemma_bit_box(bw, x, y + rows - 1, glyph[rows - 1], 8, color);
        lemma_box_widen(
            bit_writes((y + rows - 1) * bw + x, glyph[rows - 1], 8, color),
            bw,
            y + rows - 1,
            y + rows,
            x,
            x + 8,
            y,
            y + 16,
            x,
            x + 8,
        );
        lemma_box_concat(
            glyph_writes(bw, x, y, glyph, color, (rows - 1) as nat),
            bit_writes((y + rows - 1) * bw + x, glyph[rows - 1], 8, color),
            bw,
            y,
            y + 16,
            x,
            x + 8,
        );
    }
}

proof fn lemma_string_box(font: Seq<[u8; 16]>, bw: int, x: int, y: int, text: Seq<char>, color: u32, mw: int, i: int)
    requires
        0 <= i,
        i == 0 || 8 * i <= mw,
    ensures
        writes_in_box(string_writes_from(font, bw, x, y, text, color, mw, i), bw, y, y + 16, x, x + mw),
    decreases text.len() - i,
{
    if i < text.len() {
        let cx = x + 8 * i;
        if cx + 8 > x + mw {
            if cx >= x + 16 {
                let d1 = char_writes(font, bw, cx - 16, y, '.', color);
                let d2 = char_writes(font, bw, cx - 8, y, '.', color);
                lemma_glyph_box(bw, cx - 16, y, font[glyph_code('.')]@, color, 16);
                lemma_glyph_box(bw, cx - 8, y, font[glyph_code('.')]@, color, 16);
                lemma_box_widen(d1, bw, y, y + 16, cx - 16, cx - 8, y, y + 16, x, x + mw);
                lemma_box_widen(d2, bw, y, y + 16, cx - 8, cx, y, y + 16, x, x + mw);
                lemma_box_concat(d1, d2, bw, y, y + 16, x, x + mw);
            }
        } else {
            let g = char_writes(font, bw, cx, y, text[i], color);
            lemma_glyph_box(bw, cx, y, font[glyph_code(text[i])]@, color, 16);
            lemma_box_widen(g, bw, y, y + 16, cx, cx + 8, y, y + 16, x, x + mw);
            lemma_string_box(font, bw, x, y, text, color, mw, i + 1);
            lemma_box_concat(g, string_writes_from(font, bw, x, y, text, color, mw, i + 1), bw, y, y + 16, x, x + mw);
        }
    }
}

/// The writes that draw a string lie in its 16 rows and `max_width` columns.
pub proof fn lemma_string_writes_box(font: Seq<[u8; 16]>, bw: int, x: int, y: int, text: Seq<char>, color: u32, max_width: int)
    ensures
        writes_in_box(string_writes(font, bw, x, y, text, color, max_width), bw, y, y + 16, x, x + max_width),
{
    lemma_string_box(font, bw, x, y, text, color, max_width, 0);
}

/// Drawing a string stays within its width: every pixel that `draw_string` changes
/// lies in the 16 rows from `y`, between column `x` and column `x + max_width`.
pub proof fn law_string_within_width(
    buf: Seq<u32>,
    font: Seq<[u8; 16]>,
    bw: int,
    x: int,
    y: int,
    text: Seq<char>,
    color: u32,
    max_width: int,
    p: int,
)
    requires
        0 <= p < buf.len(),
        apply_writes(buf, string_writes(font, bw, x, y, text, color, max_width))[p] != buf[p],
    ensures
        in_box(p, bw, y, y + 16, x, x + max_width),
{
    let ws = string_writes(font, bw, x, y, text, color, max_width);
    lemma_string_box(font, bw, x, y, text, color, max_width, 0);
    lemma_apply_changed(buf, ws, p);
    let k = choose|k: int| 0 <= k < ws.len() && (#[trigger] ws[k]).0 == p;
    assert(in_box(ws[k].0, bw, y, y + 16, x, x + max_width));
}

/// Colours of the tab bar.
pub const TAB_BAR_BG: u32 = 0xFF1E1E1E;

pub const TAB_FG: u32 = 0xFFD4D4D4;

pub const TAB_ACTIVE_BG: u32 = 0xFF3C3C3C;

pub const TAB_INACTIVE_BG: u32 = 0xFF252525;

pub const TAB_BORDER: u32 = 0xFF000000;

pub const TAB_CLOSE_FG: u32 = 0xFFAAAAAA;

pub const TAB_HIGHLIGHT: u32 = 0xFF007ACC;

/// Width in pixels of one tab.
pub const TAB_WIDTH: usize = 200;

/// Title shown for a tab: its own, or a loading notice while it has none.
pub open spec fn tab_title(t: Seq<char>) -> Seq<char> {
    if t.len() == 0 {
        "Carregando..."@
    } else {
        t
    }
}

pub open spec fn sat_sub(a: int, b: int) -> int {
    if a >= b {
        a - b
    } else {
        0
    }
}

/// Width in pixels of tab `i` in a bar `width` pixels wide (the last visible one may be cut).
pub open spec fn tab_span(width: int, i: int) -> int {
    if i * 200 + 200 > width {
        width - i * 200
    } else {
        200
    }
}

/// Writes that draw tab `i`: background, right border, title, close button, highlight.
pub open spec fn tab_writes(font: Seq<[u8; 16]>, width: int, titles: Seq<Seq<char>>, active: int, i: int) -> Seq<(int, u32)> {
    let start_x = i * 200;
    let w = tab_span(width, i);
    let bg = if i == active {
        TAB_ACTIVE_BG
    } else {
        TAB_INACTIVE_BG
    };
    let close_x = start_x + w - 20;
    rect_writes(width, start_x, 0, w as nat, 32, bg) + rect_writes(width, start_x + w - 1, 0, 1, 32, TAB_BORDER)
        + string_writes(font, width, start_x + 10, 8, tab_title(titles[i]), TAB_FG, sat_sub(w, 30))
        + (if close_x > start_x + 20 {
        char_writes(font, width, close_x, 8, 'x', TAB_CLOSE_FG)
    } else {
        Seq::empty()
    }) + (if i == active {
        rect_writes(width, start_x, 0, w as nat, 2, TAB_HIGHLIGHT)
    } else {
        Seq::empty()
    })
}

/// Writes for tabs `i..`, stopping at the first one that starts past the right edge.
pub open spec fn tabs_writes_from(font: Seq<[u8; 16]>, width: int, titles: Seq<Seq<char>>, active: int, i: int) -> Seq<(int, u32)>
    decreases titles.len() - i,
{
    if i < 0 || i >= titles.len() || i * 200 >= width {
        Seq::empty()
    } else {
        tab_writes(font, width, titles, active, i) + tabs_writes_from(font, width, titles, active, i + 1)
    }
}

/// Writes that draw the whole tab bar: background, tabs, and the new-tab `+`.
pub open spec fn tab_bar_writes(font: Seq<[u8; 16]>, width: int, titles: Seq<Seq<char>>, active: int) -> Seq<(int, u32)> {
    let plus_x = titles.len() as int * 200 + 10;
    rect_writes(width, 0, 0, width as nat, 32, TAB_BAR_BG) + tabs_writes_from(font, width, titles, active, 0)
        + (if plus_x < width {
        char_writes(font, width, plus_x, 8, '+', TAB_FG)
    } else {
        Seq::empty()
    })
}

/// Draws the tab bar for tabs titled `titles`, with tab `active_index` highlighted.
#[verifier::spinoff_prover]
pub fn render_tab_bar(buffer: &mut [u32], width: usize, titles: &[String], active_index: usize, font: &[[u8; 16]])
    requires
        font@.len() >= 128,
        rect_ok(width, 0, 0, width, TABBAR_HEIGHT as usize),
        titles@.len() * 200 + 10 <= usize::MAX,
        titles@.len() == 0 || width == 0 || width >= 20,
    ensures
        final(buffer)@ == apply_writes(old(buffer)@, tab_bar_writes(font@, width as int, strings_view(titles@), active_index as int)),
{
    let ghost tv = strings_view(titles@);
    let ghost total = tab_bar_writes(font@, width as int, tv, active_index as int);
    let plus_x = titles.len() * TAB_WIDTH + 10;
    let ghost plus = if plus_x < width {
        char_writes(font@, width as int, plus_x as int, 8, '+', TAB_FG)
    } else {
        Seq::<(int, u32)>::empty()
    };
    let ghost bg = rect_writes(width as int, 0, 0, width as nat, 32, TAB_BAR_BG);
    clear_rect(buffer, width, 0, 0, width, TABBAR_HEIGHT as usize, TAB_BAR_BG);
    proof {
        assert(total == bg + tabs_writes_from(font@, width as int, tv, active_index as int, 0) + plus);
        lemma_apply_concat(old(buffer)@, bg + tabs_writes_from(font@, width as int, tv, active_index as int, 0), plus);
        lemma_apply_concat(old(buffer)@, bg, tabs_writes_from(font@, width as int, tv, active_index as int, 0));
        if width > 0 {
            assert(32 * width <= usize::MAX + 1);
        }
        assert((8 + 15) * (width as int) == 23 * width) by (nonlinear_arith);
        assert((0 + 32 - 1) * (width as int) == 31 * width) by (nonlinear_arith);
    }
    let mut i: usize = 0;
    while i < titles.len() && i * TAB_WIDTH < width
        invariant
            tv == strings_view(titles@),
            font@.len() >= 128,
            rect_ok(width, 0, 0, width, TABBAR_HEIGHT as usize),
            width > 0 ==> 32 * width <= usize::MAX + 1,
            (8 + 15) * (width as int) == 23 * width,
            (0 + 32 - 1) * (width as int) == 31 * width,
            titles@.len() * 200 + 10 <= usize::MAX,
            titles@.len() == 0 || width == 0 || width >= 20,
            i <= titles.len(),
            apply_writes(old(buffer)@, total) == apply_writes(apply_writes(buffer@, tabs_writes_from(font@, width as int, tv, active_index as int, i as int)), plus),
        decreases titles.len() - i,
    {
        let start_x = i * TAB_WIDTH;
        let ghost before = buffer@;
        let is_active = i == active_index;
        let t_bg = if is_active { TAB_ACTIVE_BG } else { TAB_INACTIVE_BG };
        let w = if start_x + TAB_WIDTH > width { width - start_x } else { TAB_WIDTH };
        proof {
            assert(w == tab_span(width as int, i as int));
            assert(start_x + w <= width);
            assert(start_x + w >= 20);
        }
        let ghost p1 = rect_writes(width as int, start_x as int, 0, w as nat, 32, t_bg);
        let ghost p2 = rect_writes(width as int, (start_x + w - 1) as int, 0, 1, 32, TAB_BORDER);
        clear_rect(buffer, width, start_x, 0, w, TABBAR_HEIGHT as usize, t_bg);
        clear_rect(buffer, width, start_x + w - 1, 0, 1, TABBAR_HEIGHT as usize, TAB_BORDER);
        let text_x = start_x + 10;
        let text_y: usize = 8;
        let title: &str = if titles[i].as_str().is_empty() { "Carregando..." } else { titles[i].as_str() };
        let mw = if w >= 30 { w - 30 } else { 0 };
        proof {
            assert(tv[i as int] == titles@[i as int]@);
            assert(title@ == tab_title(tv[i as int]));
            lemma_string_ok(font@, width as int, text_x as int, 8, title@, mw as int, 0);
        }
        let ghost p3 = string_writes(font@, width as int, text_x as int, 8, title@, TAB_FG, mw as int);
        draw_string(buffer, width, text_x, text_y, title, TAB_FG, mw, font);
        let close_x = start_x + w - 20;
        let ghost p4 = if close_x > start_x + 20 {
            char_writes(font@, width as int, close_x as int, 8, 'x', TAB_CLOSE_FG)
        } else {
            Seq::<(int, u32)>::empty()
        };
        let ghost after3 = buffer@;
        if close_x > start_x + 20 {
            proof {
                lemma_glyph_ok(width as int, close_x as int, 8, font@[glyph_code('x')]@);
            }
            draw_char(buffer, width, close_x, text_y, 'x', TAB_CLOSE_FG, font);
        }
        let ghost p5 = if is_active {
            rect_writes(width as int, start_x as int, 0, w as nat, 2, TAB_HIGHLIGHT)
        } else {
            Seq::<(int, u32)>::empty()
        };
        let ghost after4 = buffer@;
        if is_active {
            assert((0 + 2 - 1) * width == width) by (nonlinear_arith);
            clear_rect(buffer, width, start_x, 0, w, 2, TAB_HIGHLIGHT);
        }
        proof {
            let rest = tabs_writes_from(font@, width as int, tv, active_index as int, i + 1);
            assert(tab_writes(font@, width as int, tv, active_index as int, i as int) == p1 + p2 + p3 + p4 + p5);
            lemma_apply_concat(before, p1, p2);
            lemma_apply_concat(before, p1 + p2, p3);
            lemma_apply_concat(before, p1 + p2 + p3, p4);
            lemma_apply_concat(before, p1 + p2 + p3 + p4, p5);
            lemma_apply_concat(before, p1 + p2 + p3 + p4 + p5, rest);
            assert(apply_writes(after3, p4) == after4);
            assert(apply_writes(after4, p5) == buffer@);
        }
        i = i + 1;
    }
    proof {
        assert(tabs_writes_from(font@, width as int, tv, active_index as int, i as int) == Seq::<(int, u32)>::empty());
    }
    if plus_x < width {
        proof {
            lemma_glyph_ok(width as int, plus_x as int, 8, font@[glyph_code('+')]@);
        }
        draw_char(buffer, width, plus_x, (TABBAR_HEIGHT as usize - 16) / 2, '+', TAB_FG, font);
    }
}

/// Every write of `ws`, lying in the box, comes at or after the box's first pixel.
pub proof fn lemma_box_writes_from(ws: Seq<(int, u32)>, bw: int, y0: int, y1: int, x0: int, x1: int, k: int)
    requires
        writes_in_box(ws, bw, y0, y1, x0, x1),
        0 <= k < ws.len(),
        0 <= bw,
    ensures
        ws[k].0 >= y0 * bw + x0,
{
    assert(in_box(ws[k].0, bw, y0, y1, x0, x1));
    let (r, c) = choose|r: int, c: int|
        y0 <= r < y1 && x0 <= c < x1 && ws[k].0 == #[trigger] pixel_index(bw, r, c);
    assert(r * bw >= y0 * bw) by (nonlinear_arith)
        requires r >= y0, bw >= 0;
}

/// Every write of `ws`, lying in the box, comes before the box's last row ends at `x1`.
pub proof fn lemma_box_writes_before(ws: Seq<(int, u32)>, bw: int, y0: int, y1: int, x0: int, x1: int, k: int)
    requires
        writes_in_box(ws, bw, y0, y1, x0, x1),
        0 <= k < ws.len(),
        0 <= bw,
    ensures
        ws[k].0 < (y1 - 1) * bw + x1,
{
    assert(in_box(ws[k].0, bw, y0, y1, x0, x1));
    let (r, c) = choose|r: int, c: int|
        y0 <= r < y1 && x0 <= c < x1 && ws[k].0 == #[trigger] pixel_index(bw, r, c);
    assert(r * bw <= (y1 - 1) * bw) by (nonlinear_arith)
        requires r <= y1 - 1, bw >= 0;
}

/// The writes that draw tab `i` lie in its 32 rows and its columns.
proof fn lemma_tab_box(font: Seq<[u8; 16]>, width: int, titles: Seq<Seq<char>>, active: int, i: int)
    requires
        0 <= i,
        i * 200 < width,
    ensures
        writes_in_box(tab_writes(font, width, titles, active, i), width, 0, 32, i * 200, i * 200 + tab_span(width, i)),
        i * 200 + tab_span(width, i) <= width,
        tab_span(width, i) <= 200,
{
    let start_x = i * 200;
    let w = tab_span(width, i);
    let bg = if i == active {
        TAB_ACTIVE_BG
    } else {
        TAB_INACTIVE_BG
    };
    let close_x = start_x + w - 20;
    let mw = sat_sub(w, 30);
    let p1 = rect_writes(width, start_x, 0, w as nat, 32, bg);
    let p2 = rect_writes(width, start_x + w - 1, 0, 1, 32, TAB_BORDER);
    let p3 = string_writes(font, width, start_x + 10, 8, tab_title(titles[i]), TAB_FG, mw);
    let p4 = if close_x > start_x + 20 {
        char_writes(font, width, close_x, 8, 'x', TAB_CLOSE_FG)
    } else {
        Seq::empty()
    };
    let p5 = if i == active {
        rect_writes(width, start_x, 0, w as nat, 2, TAB_HIGHLIGHT)
    } else {
        Seq::empty()
    };
    let (y0, y1, x0, x1) = (0int, 32int, start_x, start_x + w);
    lemma_rect_box(width, start_x, 0, w as nat, 32, bg);
    lemma_rect_box(width, start_x + w - 1, 0, 1, 32, TAB_BORDER);
    lemma_box_widen(p2, width, 0, 32, start_x + w - 1, start_x + w, y0, y1, x0, x1);
    lemma_string_writes_box(font, width, start_x + 10, 8, tab_title(titles[i]), TAB_FG, mw);
    lemma_box_widen(p3, width, 8, 24, start_x + 10, start_x + 10 + mw, y0, y1, x0, x1);
    if close_x > start_x + 20 {
        lemma_glyph_box(width, close_x, 8, font[glyph_code('x')]@, TAB_CLOSE_FG, 16);
        lemma_box_widen(p4, width, 8, 24, close_x, close_x + 8, y0, y1, x0, x1);
    }
    if i == active {
        lemma_rect_box(width, start_x, 0, w as nat, 2, TAB_HIGHLIGHT);
        lemma_box_widen(p5, width, 0, 2, start_x, start_x + w, y0, y1, x0, x1);
    }
    lemma_box_concat(p1, p2, width, y0, y1, x0, x1);
    lemma_box_concat(p1 + p2, p3, width, y0, y1, x0, x1);
    lemma_box_concat(p1 + p2 + p3, p4, width, y0, y1, x0, x1);
    lemma_box_concat(p1 + p2 + p3 + p4, p5, width, y0, y1, x0, x1);
    assert(tab_writes(font, width, titles, active, i) == p1 + p2 + p3 + p4 + p5);
}

/// The writes that draw tabs `i..` lie in the bar's 32 rows, from tab `i`'s first column.
proof fn lemma_tabs_box(font: Seq<[u8; 16]>, width: int, titles: Seq<Seq<char>>, active: int, i: int)
    requires
        0 <= i,
    ensures
        writes_in_box(tabs_writes_from(font, width, titles, active, i), width, 0, 32, i * 200, width),
    decreases titles.len() - i,
{
    if i < titles.len() && i * 200 < width {
        let t = tab_writes(font, width, titles, active, i);
        let rest = tabs_writes_from(font, width, titles, active, i + 1);
        lemma_tab_box(font, width, titles, active, i);
        lemma_box_widen(t, width, 0, 32, i * 200, i * 200 + tab_span(width, i), 0, 32, i * 200, width);
        lemma_tabs_box(font, width, titles, active, i + 1);
        lemma_box_widen(rest, width, 0, 32, (i + 1) * 200, width, 0, 32, i * 200, width);
        lemma_box_concat(t, rest, width, 0, 32, i * 200, width);
    }
}

/// The writes of tabs `i .. a`, in order.
pub open spec fn tabs_writes_between(font: Seq<[u8; 16]>, width: int, titles: Seq<Seq<char>>, active: int, i: int, a: int) -> Seq<(int, u32)>
    decreases a - i,
{
    if i >= a {
        Seq::empty()
    } else {
        tab_writes(font, width, titles, active, i) + tabs_writes_between(font, width, titles, active, i + 1, a)
    }
}

proof fn lemma_tabs_split(font: Seq<[u8; 16]>, width: int, titles: Seq<Seq<char>>, active: int, i: int, a: int)
    requires
        0 <= i <= a < titles.len(),
        a * 200 < width,
    ensures
        tabs_writes_from(font, width, titles, active, i) == tabs_writes_between(font, width, titles, active, i, a)
            + tabs_writes_from(font, width, titles, active, a),
    decreases a - i,
{
    if i < a {
        lemma_tabs_split(font, width, titles, active, i + 1, a);
        assert(i * 200 < a * 200);
        assert(tabs_writes_from(font, width, titles, active, i) =~= tabs_writes_between(font, width, titles, active, i, a)
            + tabs_writes_from(font, width, titles, active, a));
    } else {
        assert(tabs_writes_from(font, width, titles, active, i) =~= tabs_writes_between(font, width, titles, active, i, a)
            + tabs_writes_from(font, width, titles, active, a));
    }
}

/// Drawing the tab bar changes no pixel past its 32 rows.
pub proof fn law_tab_bar_confined(buf: Seq<u32>, font: Seq<[u8; 16]>, width: int, titles: Seq<Seq<char>>, active: int, p: int)
    requires
        0 <= width,
        0 <= p < buf.len(),
        p >= 32 * width,
    ensures
        apply_writes(buf, tab_bar_writes(font, width, titles, active))[p] == buf[p],
{
    let plus_x = titles.len() as int * 200 + 10;
    let bg = rect_writes(width, 0, 0, width as nat, 32, TAB_BAR_BG);
    let tabs = tabs_writes_from(font, width, titles, active, 0);
    let plus = if plus_x < width {
        char_writes(font, width, plus_x, 8, '+', TAB_FG)
    } else {
        Seq::empty()
    };
    let ws = tab_bar_writes(font, width, titles, active);
    assert(ws == bg + tabs + plus);
    lemma_rect_box(width, 0, 0, width as nat, 32, TAB_BAR_BG);
    lemma_tabs_box(font, width, titles, active, 0);
    lemma_box_concat(bg, tabs, width, 0, 32, 0, width);
    if plus_x < width {
        lemma_glyph_box(width, plus_x, 8, font[glyph_code('+')]@, TAB_FG, 16);
    }
    assert forall|k: int| 0 <= k < ws.len() implies (#[trigger] ws[k]).0 != p by {
        if k < (bg + tabs).len() {
            assert(ws[k] == (bg + tabs)[k]);
            lemma_box_writes_before(bg + tabs, width, 0, 32, 0, width, k);
            assert((32 - 1) * width + width == 32 * width) by (nonlinear_arith);
        } else {
            assert(ws[k] == plus[k - (bg + tabs).len()]);
            lemma_box_writes_before(plus, width, 8, 24, plus_x, plus_x + 8, k - (bg + tabs).len());
            assert((24 - 1) * width + plus_x + 8 <= 32 * width) by (nonlinear_arith)
                requires plus_x < width, 0 <= plus_x;
        }
    }
    lemma_apply_untouched(buf, ws, p);
}

/// The active tab, when it is on screen, shows the highlight colour across its top two rows.
pub proof fn law_active_tab_highlighted(
    buf: Seq<u32>,
    font: Seq<[u8; 16]>,
    width: int,
    titles: Seq<Seq<char>>,
    active: int,
    r: int,
    c: int,
)
    requires
        0 <= active < titles.len(),
        0 <= r < 2,
        active * 200 <= c < active * 200 + tab_span(width, active),
        0 <= pixel_index(width, r, c) < buf.len(),
    ensures
        apply_writes(buf, tab_bar_writes(font, width, titles, active))[pixel_index(width, r, c)] == TAB_HIGHLIGHT,
{
    let idx = pixel_index(width, r, c);
    let a = active;
    assert(a * 200 < width);
    let start_x = a * 200;
    let w = tab_span(width, a);
    lemma_tab_box(font, width, titles, a, a);
    let plus_x = titles.len() as int * 200 + 10;
    let bg = rect_writes(width, 0, 0, width as nat, 32, TAB_BAR_BG);
    let pre = tabs_writes_between(font, width, titles, a, 0, a);
    let rest = tabs_writes_from(font, width, titles, a, a + 1);
    let plus = if plus_x < width {
        char_writes(font, width, plus_x, 8, '+', TAB_FG)
    } else {
        Seq::empty()
    };
    let bgc = if a == a { TAB_ACTIVE_BG } else { TAB_INACTIVE_BG };
    let close_x = start_x + w - 20;
    let q = rect_writes(width, start_x, 0, w as nat, 32, bgc) + rect_writes(width, start_x + w - 1, 0, 1, 32, TAB_BORDER)
        + string_writes(font, width, start_x + 10, 8, tab_title(titles[a]), TAB_FG, sat_sub(w, 30))
        + (if close_x > start_x + 20 {
        char_writes(font, width, close_x, 8, 'x', TAB_CLOSE_FG)
    } else {
        Seq::empty()
    });
    let hl = rect_writes(width, start_x, 0, w as nat, 2, TAB_HIGHLIGHT);
    assert(tab_writes(font, width, titles, a, a) == q + hl);
    lemma_tabs_split(font, width, titles, a, 0, a);
    let x = bg + pre + q;
    let ws = tab_bar_writes(font, width, titles, a);
    assert(ws =~= x + hl + rest + plus);
    lemma_apply_concat(buf, x + hl + rest, plus);
    lemma_apply_concat(buf, x + hl, rest);
    lemma_apply_concat(buf, x, hl);
    let b0 = apply_writes(buf, x);
    let b1 = apply_writes(b0, hl);
    let b2 = apply_writes(b1, rest);
    lemma_apply_len(buf, x);
    lemma_apply_len(b0, hl);
    lemma_apply_len(b1, rest);
    lemma_row_span(idx, width, r, c, 1);
    law_fill_rect(b0, width, start_x, 0, w as nat, 2, TAB_HIGHLIGHT, idx);
    lemma_tabs_box(font, width, titles, a, a + 1);
    lemma_apply_outside_box(b1, rest, width, r, c, 0, 32, (a + 1) * 200, width);
    if plus_x < width {
        lemma_glyph_box(width, plus_x, 8, font[glyph_code('+')]@, TAB_FG, 16);
        assert forall|k: int| 0 <= k < plus.len() implies (#[trigger] plus[k]).0 != idx by {
            lemma_box_writes_from(plus, width, 8, 24, plus_x, plus_x + 8, k);
            assert(8 * width >= 2 * width) by (nonlinear_arith)
                requires width >= 0;
            assert(r * width <= width) by (nonlinear_arith)
                requires 0 <= r < 2, width >= 0;
        }
    }
    lemma_apply_untouched(b2, plus, idx);
}

} // verus!
