//! The monochrome 64x32 framebuffer: a flat row-major pixel grid with
//! clear and XOR sprite drawing, independent of any presentation backend.

use vstd::arithmetic::div_mod::lemma_fundamental_div_mod;
use vstd::arithmetic::div_mod::lemma_fundamental_div_mod_converse_div;
use vstd::arithmetic::div_mod::lemma_fundamental_div_mod_converse_mod;
use vstd::arithmetic::mul::lemma_mul_inequality;
use vstd::arithmetic::mul::lemma_mul_is_distributive_sub;
use vstd::prelude::*;

verus! {

/// Pixel grid width in columns.
pub const SCREEN_WIDTH: usize = 64;

/// Pixel grid height in rows.
pub const SCREEN_HEIGHT: usize = 32;

/// Bit `dx` of a sprite row byte, counted from the most significant bit,
/// so that `dx` is the horizontal offset of the pixel the bit drives.
pub open spec fn sprite_bit(b: u8, dx: int) -> bool {
    (b >> ((7 - dx) as u8)) & 1 == 1
}

/// Whether a sprite placed at `(x, y)` covers the pixel `(px, py)` with a
/// set bit, counting only bit positions processed before row `rows` is
/// complete: all of rows `0..rows`, and bits `0..bits` of row `rows`.
/// Coordinates wrap per axis: bit `(dy, dx)` lands on
/// `((x + dx) % 64, (y + dy) % 32)`.
pub open spec fn covers_upto(
    sprite: Seq<u8>,
    x: int,
    y: int,
    rows: int,
    bits: int,
    px: int,
    py: int,
) -> bool {
    exists|dy: int, dx: int|
        0 <= dy < sprite.len() && 0 <= dx < 8 && (dy < rows || (dy == rows && dx < bits))
            && #[trigger] sprite_bit(sprite[dy], dx) && px == (x + dx) % 64 && py == (y + dy) % 32
}

/// Whether the whole sprite placed at `(x, y)` covers pixel `(px, py)`.
pub open spec fn covers(sprite: Seq<u8>, x: int, y: int, px: int, py: int) -> bool {
    covers_upto(sprite, x, y, sprite.len() as int, 0, px, py)
}

/// Whether some pixel covered within the first `rows` rows (plus `bits`
/// bits of row `rows`) was already set in `buf`: the collision condition.
pub open spec fn collides_upto(
    buf: Seq<bool>,
    sprite: Seq<u8>,
    x: int,
    y: int,
    rows: int,
    bits: int,
) -> bool {
    exists|px: int, py: int|
        0 <= px < 64 && 0 <= py < 32 && #[trigger] covers_upto(sprite, x, y, rows, bits, px, py)
            && buf[py * 64 + px]
}

/// Whether drawing the sprite at `(x, y)` turns some previously set pixel
/// off.
pub open spec fn draw_collides(buf: Seq<bool>, sprite: Seq<u8>, x: int, y: int) -> bool {
    collides_upto(buf, sprite, x, y, sprite.len() as int, 0)
}

/// The framebuffer after drawing the sprite at `(x, y)`: every covered
/// pixel is toggled, every other pixel keeps its state.
pub open spec fn draw_result(buf: Seq<bool>, sprite: Seq<u8>, x: int, y: int) -> Seq<bool> {
    Seq::new(
        buf.len(),
        |idx: int|
            if covers(sprite, x, y, idx % 64, idx / 64) {
                !buf[idx]
            } else {
                buf[idx]
            },
    )
}

/// Distinct offsets below the wrap modulus land on distinct wrapped
/// coordinates.
proof fn lemma_wrap_inj(base: int, a: int, b: int, m: int)
    requires
        0 <= base,
        0 <= a < m,
        0 <= b < m,
        a != b,
    ensures
        (base + a) % m != (base + b) % m,
{
    if (base + a) % m == (base + b) % m {
        lemma_fundamental_div_mod(base + a, m);
        lemma_fundamental_div_mod(base + b, m);
        let qa = (base + a) / m;
        let qb = (base + b) / m;
        lemma_mul_is_distributive_sub(m, qb, qa);
        let k = qb - qa;
        assert(b - a == m * k);
        if k >= 1 {
            lemma_mul_inequality(1, k, m);
            assert(m * k >= m * 1);
        } else if k <= -1 {
            lemma_mul_inequality(k, -1, m);
            assert(m * k <= m * (-1));
        }
    }
}

/// A pixel index below 2048 splits into a column below 64 and a row below
/// 32, and recombines to itself.
proof fn lemma_pix_split(idx: int)
    requires
        0 <= idx < 2048,
    ensures
        0 <= idx % 64 < 64,
        0 <= idx / 64 < 32,
        idx == (idx / 64) * 64 + idx % 64,
{
    lemma_fundamental_div_mod(idx, 64);
    assert(idx == 64 * (idx / 64) + idx % 64);
}

/// A column below 64 and a row below 32 recombine to an index that splits
/// back into them.
proof fn lemma_pix_join(px: int, py: int)
    requires
        0 <= px < 64,
        0 <= py < 32,
    ensures
        0 <= py * 64 + px < 2048,
        (py * 64 + px) % 64 == px,
        (py * 64 + px) / 64 == py,
{
    lemma_fundamental_div_mod_converse_mod(py * 64 + px, 64, py, px);
    lemma_fundamental_div_mod_converse_div(py * 64 + px, 64, py, px);
}

/// Growing the processed region by one bit adds coverage of exactly the
/// pixel that bit drives, when the bit is set.
proof fn lemma_covers_step(sprite: Seq<u8>, x: int, y: int, rows: int, bits: int, px: int, py: int)
    requires
        0 <= rows < sprite.len(),
        0 <= bits < 8,
    ensures
        covers_upto(sprite, x, y, rows, bits + 1, px, py) <==> (covers_upto(
            sprite,
            x,
            y,
            rows,
            bits,
            px,
            py,
        ) || (sprite_bit(sprite[rows], bits) && px == (x + bits) % 64 && py == (y + rows) % 32)),
{
    if covers_upto(sprite, x, y, rows, bits + 1, px, py) {
        let (dy, dx) = choose|dy: int, dx: int|
            0 <= dy < sprite.len() && 0 <= dx < 8 && (dy < rows || (dy == rows && dx < bits + 1))
                && #[trigger] sprite_bit(sprite[dy], dx) && px == (x + dx) % 64 && py == (y + dy)
                % 32;
        if !(dy == rows && dx == bits) {
            assert(covers_upto(sprite, x, y, rows, bits, px, py));
        }
    }
    if covers_upto(sprite, x, y, rows, bits, px, py) {
        let (dy, dx) = choose|dy: int, dx: int|
            0 <= dy < sprite.len() && 0 <= dx < 8 && (dy < rows || (dy == rows && dx < bits))
                && #[trigger] sprite_bit(sprite[dy], dx) && px == (x + dx) % 64 && py == (y + dy)
                % 32;
        assert(covers_upto(sprite, x, y, rows, bits + 1, px, py));
    }
    if sprite_bit(sprite[rows], bits) && px == (x + bits) % 64 && py == (y + rows) % 32 {
        assert(covers_upto(sprite, x, y, rows, bits + 1, px, py));
    }
}

/// Finishing the eight bits of one row covers the same pixels as starting
/// the next row with no bits processed.
proof fn lemma_covers_row_advance(sprite: Seq<u8>, x: int, y: int, rows: int, px: int, py: int)
    requires
        0 <= rows,
    ensures
        covers_upto(sprite, x, y, rows, 8, px, py) <==> covers_upto(
            sprite,
            x,
            y,
            rows + 1,
            0,
            px,
            py,
        ),
{
    if covers_upto(sprite, x, y, rows, 8, px, py) {
        let (dy, dx) = choose|dy: int, dx: int|
            0 <= dy < sprite.len() && 0 <= dx < 8 && (dy < rows || (dy == rows && dx < 8))
                && #[trigger] sprite_bit(sprite[dy], dx) && px == (x + dx) % 64 && py == (y + dy)
                % 32;
        assert(covers_upto(sprite, x, y, rows + 1, 0, px, py));
    }
    if covers_upto(sprite, x, y, rows + 1, 0, px, py) {
        let (dy, dx) = choose|dy: int, dx: int|
            0 <= dy < sprite.len() && 0 <= dx < 8 && (dy < rows + 1 || (dy == rows + 1 && dx < 0))
                && #[trigger] sprite_bit(sprite[dy], dx) && px == (x + dx) % 64 && py == (y + dy)
                % 32;
        assert(covers_upto(sprite, x, y, rows, 8, px, py));
    }
}

/// The pixel that bit `(rows, bits)` drives is not covered by any bit
/// processed before it: within one sprite of at most 32 rows, no two bits
/// drive the same pixel.
proof fn lemma_not_covered_yet(sprite: Seq<u8>, x: int, y: int, rows: int, bits: int)
    requires
        0 <= x,
        0 <= y,
        sprite.len() <= 32,
        0 <= rows < sprite.len(),
        0 <= bits < 8,
    ensures
        !covers_upto(sprite, x, y, rows, bits, (x + bits) % 64, (y + rows) % 32),
{
    let px = (x + bits) % 64;
    let py = (y + rows) % 32;
    if covers_upto(sprite, x, y, rows, bits, px, py) {
        let (dy, dx) = choose|dy: int, dx: int|
            0 <= dy < sprite.len() && 0 <= dx < 8 && (dy < rows || (dy == rows && dx < bits))
                && #[trigger] sprite_bit(sprite[dy], dx) && px == (x + dx) % 64 && py == (y + dy)
                % 32;
        if dy == rows {
            lemma_wrap_inj(x, dx, bits, 64);
        } else {
            lemma_wrap_inj(y, dy, rows, 32);
        }
    }
}

/// Sprite draw is self-inverse: drawing the identical sprite at the
/// identical coordinates twice in succession restores the framebuffer to
/// its pre-draw state; and the second draw reports a collision exactly
/// when the first draw left some covered pixel set, that is, when some
/// covered pixel was clear before the first draw.
pub proof fn lemma_draw_self_inverse(buf: Seq<bool>, sprite: Seq<u8>, x: int, y: int)
    requires
        buf.len() == 2048,
    ensures
        draw_result(draw_result(buf, sprite, x, y), sprite, x, y) == buf,
        draw_collides(draw_result(buf, sprite, x, y), sprite, x, y) == (exists|px: int, py: int|
            0 <= px < 64 && 0 <= py < 32 && #[trigger] covers(sprite, x, y, px, py) && !buf[py * 64
                + px]),
{
    let d1 = draw_result(buf, sprite, x, y);
    assert(draw_result(d1, sprite, x, y) =~= buf);
    let rows = sprite.len() as int;
    if draw_collides(d1, sprite, x, y) {
        let (px, py) = choose|px: int, py: int|
            0 <= px < 64 && 0 <= py < 32 && #[trigger] covers_upto(sprite, x, y, rows, 0, px, py)
                && d1[py * 64 + px];
        lemma_pix_join(px, py);
        assert(covers(sprite, x, y, px, py) && !buf[py * 64 + px]);
    }
    if exists|px: int, py: int|
        0 <= px < 64 && 0 <= py < 32 && #[trigger] covers(sprite, x, y, px, py) && !buf[py * 64
            + px] {
        let (px, py) = choose|px: int, py: int|
            0 <= px < 64 && 0 <= py < 32 && #[trigger] covers(sprite, x, y, px, py) && !buf[py * 64
                + px];
        lemma_pix_join(px, py);
        assert(d1[py * 64 + px]);
        assert(collides_upto(d1, sprite, x, y, rows, 0));
    }
}

/// Coordinate wraparound: an eight-bit all-set sprite row drawn at
/// column 60 covers exactly columns 60..=63 and 0..=3 of its row, not
/// columns past the right edge.
pub proof fn lemma_draw_wraparound(y: int, px: int, py: int)
    requires
        0 <= y,
    ensures
        covers(seq![0xFFu8], 60, y, px, py) <==> (py == y % 32 && (60 <= px < 64 || 0 <= px < 4)),
{
    let s = seq![0xFFu8];
    assert(((0xFFu8 >> 7u8) & 1) == 1 && ((0xFFu8 >> 6u8) & 1) == 1 && ((0xFFu8 >> 5u8) & 1) == 1
        && ((0xFFu8 >> 4u8) & 1) == 1 && ((0xFFu8 >> 3u8) & 1) == 1 && ((0xFFu8 >> 2u8) & 1) == 1
        && ((0xFFu8 >> 1u8) & 1) == 1 && ((0xFFu8 >> 0u8) & 1) == 1) by (bit_vector);
    if covers(s, 60, y, px, py) {
        let (dy, dx) = choose|dy: int, dx: int|
            0 <= dy < s.len() && 0 <= dx < 8 && (dy < s.len() as int || (dy == s.len() as int && dx
                < 0)) && #[trigger] sprite_bit(s[dy], dx) && px == (60 + dx) % 64 && py == (y + dy)
                % 32;
        assert(dy == 0);
        assert(py == y % 32 && (60 <= px < 64 || 0 <= px < 4));
    }
    if py == y % 32 && (60 <= px < 64 || 0 <= px < 4) {
        let dx: int = if px >= 60 {
            px - 60
        } else {
            px + 4
        };
        assert(sprite_bit(s[0], dx));
        assert(px == (60 + dx) % 64);
        assert(covers(s, 60, y, px, py));
    }
}

/// The framebuffer: pixel `(px, py)` is `buffer[py * 64 + px]`.
pub struct Display {
    pub buffer: Vec<bool>,
}

impl Display {
    pub open spec fn wf(&self) -> bool {
        self.buffer@.len() == 64 * 32
    }

    /// A framebuffer with every pixel unset.
    pub fn new() -> (r: Display)
        ensures
            r.wf(),
            forall|idx: int| 0 <= idx < 64 * 32 ==> !r.buffer@[idx],
    {
        let mut buffer: Vec<bool> = Vec::new();
        let mut k: usize = 0;
        while k < 64 * 32
            invariant
                buffer@.len() == k,
                k <= 64 * 32,
                forall|j: int| 0 <= j < k ==> !buffer@[j],
            decreases 64 * 32 - k,
        {
            buffer.push(false);
            k = k + 1;
        }
        Display { buffer }
    }

    /// Reset every pixel to unset.
    pub fn clear(&mut self)
        requires
            old(self).wf(),
        ensures
            final(self).wf(),
            forall|idx: int| 0 <= idx < 64 * 32 ==> !final(self).buffer@[idx],
    {
        let mut k: usize = 0;
        while k < 64 * 32
            invariant
                self.wf(),
                k <= 64 * 32,
                forall|j: int| 0 <= j < k ==> !self.buffer@[j],
            decreases 64 * 32 - k,
        {
            self.buffer.set(k, false);
            k = k + 1;
        }
    }

    /// XOR-draw the sprite rows at `(x, y)`, wrapping each axis, and
    /// report whether any covered pixel was turned from set to unset.
    pub fn draw(&mut self, x: usize, y: usize, sprite: &[u8]) -> (collided: bool)
        requires
            old(self).wf(),
            sprite@.len() < 16,
            x <= usize::MAX - 8,
            y <= usize::MAX - 32,
        ensures
            final(self).wf(),
            final(self).buffer@ == draw_result(old(self).buffer@, sprite@, x as int, y as int),
            collided == draw_collides(old(self).buffer@, sprite@, x as int, y as int),
    {
        let ghost buf0 = self.buffer@;
        let ghost xi = x as int;
        let ghost yi = y as int;
        let ghost s = sprite@;
        let mut collided = false;
        let mut dy: usize = 0;
        while dy < sprite.len()
            invariant
                self.wf(),
                buf0.len() == 64 * 32,
                s == sprite@,
                s.len() < 16,
                xi == x as int,
                yi == y as int,
                x <= usize::MAX - 8,
                y <= usize::MAX - 32,
                dy <= s.len(),
                forall|idx: int|
                    0 <= idx < 2048 ==> self.buffer@[idx] == (if covers_upto(
                        s,
                        xi,
                        yi,
                        dy as int,
                        0,
                        idx % 64,
                        idx / 64,
                    ) {
                        !buf0[idx]
                    } else {
                        buf0[idx]
                    }),
                collided == collides_upto(buf0, s, xi, yi, dy as int, 0),
            decreases s.len() - dy,
        {
            let row: u8 = sprite[dy];
            let py: usize = (y + dy) % 32;
            proof {
                assert(py as int == (yi + dy as int) % 32);
            }
            let mut dx: usize = 0;
            while dx < 8
                invariant
                    self.wf(),
                    buf0.len() == 64 * 32,
                    s == sprite@,
                    s.len() < 16,
                    xi == x as int,
                    yi == y as int,
                    x <= usize::MAX - 8,
                    y <= usize::MAX - 32,
                    dy < s.len(),
                    dx <= 8,
                    row == s[dy as int],
                    py as int == (yi + dy as int) % 32,
                    py < 32,
                    forall|idx: int|
                        0 <= idx < 2048 ==> self.buffer@[idx] == (if covers_upto(
                            s,
                            xi,
                            yi,
                            dy as int,
                            dx as int,
                            idx % 64,
                            idx / 64,
                        ) {
                            !buf0[idx]
                        } else {
                            buf0[idx]
                        }),
                    collided == collides_upto(buf0, s, xi, yi, dy as int, dx as int),
                decreases 8 - dx,
            {
                let ghost dyi = dy as int;
                let ghost dxi = dx as int;
                let sh: u8 = (7 - dx) as u8;
                let bit: u8 = (row >> sh) & 1;
                proof {
                    assert(sprite_bit(s[dyi], dxi) == (bit == 1));
                }
                if bit == 1 {
                    let px: usize = (x + dx) % 64;
                    let idx: usize = py * 64 + px;
                    proof {
                        assert(px as int == (xi + dxi) % 64);
                        lemma_pix_join(px as int, py as int);
                    }
                    let cur: bool = self.buffer[idx];
                    if cur {
                        collided = true;
                    }
                    self.buffer.set(idx, !cur);
                    proof {
                        let pxi = px as int;
                        let pyi = py as int;
                        let idxi = idx as int;
                        lemma_not_covered_yet(s, xi, yi, dyi, dxi);
                        assert(cur == buf0[idxi]);
                        assert forall|idx2: int| 0 <= idx2 < 2048 implies self.buffer@[idx2] == (
                        if covers_upto(s, xi, yi, dyi, dxi + 1, idx2 % 64, idx2 / 64) {
                            !buf0[idx2]
                        } else {
                            buf0[idx2]
                        }) by {
                            lemma_pix_split(idx2);
                            lemma_covers_step(s, xi, yi, dyi, dxi, idx2 % 64, idx2 / 64);
                            if idx2 != idxi {
                                if idx2 % 64 == pxi && idx2 / 64 == pyi {
                                    assert(idx2 == (idx2 / 64) * 64 + idx2 % 64);
                                    assert(false);
                                }
                            }
                        }
                        assert forall|px2: int, py2: int|
                            0 <= px2 < 64 && 0 <= py2 < 32 && #[trigger] covers_upto(
                                s,
                                xi,
                                yi,
                                dyi,
                                dxi + 1,
                                px2,
                                py2,
                            ) && buf0[py2 * 64 + px2] implies collided by {
                            lemma_covers_step(s, xi, yi, dyi, dxi, px2, py2);
                            if covers_upto(s, xi, yi, dyi, dxi, px2, py2) {
                                assert(collides_upto(buf0, s, xi, yi, dyi, dxi));
                            } else {
                                lemma_pix_join(px2, py2);
                            }
                        }
                        if collided {
                            if collides_upto(buf0, s, xi, yi, dyi, dxi) {
                                let (px2, py2) = choose|px2: int, py2: int|
                                    0 <= px2 < 64 && 0 <= py2 < 32 && #[trigger] covers_upto(
                                        s,
                                        xi,
                                        yi,
                                        dyi,
                                        dxi,
                                        px2,
                                        py2,
                                    ) && buf0[py2 * 64 + px2];
                                lemma_covers_step(s, xi, yi, dyi, dxi, px2, py2);
                                assert(collides_upto(buf0, s, xi, yi, dyi, dxi + 1));
                            } else {
                                assert(cur);
                                lemma_covers_step(s, xi, yi, dyi, dxi, pxi, pyi);
                                assert(covers_upto(s, xi, yi, dyi, dxi + 1, pxi, pyi));
                                assert(collides_upto(buf0, s, xi, yi, dyi, dxi + 1));
                            }
                        }
                        assert(collided == collides_upto(buf0, s, xi, yi, dyi, dxi + 1));
                    }
                } else {
                    proof {
                        assert forall|idx2: int| 0 <= idx2 < 2048 implies self.buffer@[idx2] == (
                        if covers_upto(s, xi, yi, dyi, dxi + 1, idx2 % 64, idx2 / 64) {
                            !buf0[idx2]
                        } else {
                            buf0[idx2]
                        }) by {
                            lemma_pix_split(idx2);
                            lemma_covers_step(s, xi, yi, dyi, dxi, idx2 % 64, idx2 / 64);
                        }
                        assert forall|px2: int, py2: int|
                            0 <= px2 < 64 && 0 <= py2 < 32 implies (covers_upto(
                            s,
                            xi,
                            yi,
                            dyi,
                            dxi + 1,
                            px2,
                            py2,
                        ) == covers_upto(s, xi, yi, dyi, dxi, px2, py2)) by {
                            lemma_covers_step(s, xi, yi, dyi, dxi, px2, py2);
                        }
                        assert(collides_upto(buf0, s, xi, yi, dyi, dxi + 1) == collides_upto(
                            buf0,
                            s,
                            xi,
                            yi,
                            dyi,
                            dxi,
                        ));
                    }
                }
                dx = dx + 1;
            }
            proof {
                assert forall|idx2: int| 0 <= idx2 < 2048 implies self.buffer@[idx2] == (
                if covers_upto(s, xi, yi, dy as int + 1, 0, idx2 % 64, idx2 / 64) {
                    !buf0[idx2]
                } else {
                    buf0[idx2]
                }) by {
                    lemma_pix_split(idx2);
                    lemma_covers_row_advance(s, xi, yi, dy as int, idx2 % 64, idx2 / 64);
                }
                assert forall|px2: int, py2: int| 0 <= px2 < 64 && 0 <= py2 < 32 implies (
                covers_upto(s, xi, yi, dy as int + 1, 0, px2, py2) == covers_upto(
                    s,
                    xi,
                    yi,
                    dy as int,
                    8,
                    px2,
                    py2,
                )) by {
                    lemma_covers_row_advance(s, xi, yi, dy as int, px2, py2);
                }
                assert(collides_upto(buf0, s, xi, yi, dy as int + 1, 0) == collides_upto(
                    buf0,
                    s,
                    xi,
                    yi,
                    dy as int,
                    8,
                ));
            }
            dy = dy + 1;
        }
        proof {
            assert(self.buffer@ =~= draw_result(buf0, s, xi, yi));
        }
        collided
    }
}

} // verus!
