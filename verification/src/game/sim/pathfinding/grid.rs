//! Obstacle grid used by A*.
//!
//! Cells are integers while the world uses `Fixed`; conversion happens at the
//! edge. Internally the grid is a bitset of `u64` words, one bit per cell.
use vstd::prelude::*;

use crate::game::base::types::{
    Fixed, Vec2Fixed, fx_add, fx_div, fx_floor, fx_mul, fx_sub, lemma_wrap64_small, trunc_div, wrap64,
};

verus! {

/// Bit `i` of a bitset stored as 64-bit words.
pub open spec fn bit_at(words: Seq<u64>, i: int) -> bool {
    (words[i / 64] >> ((i % 64) as u64)) & 1u64 == 1u64
}

/// `v` clamped into `[lo, hi]`.
pub open spec fn clamp_int(v: int, lo: int, hi: int) -> int {
    if v < lo {
        lo
    } else if v > hi {
        hi
    } else {
        v
    }
}

proof fn lemma_bit_update(w: u64, b: u64, c: u64)
    requires
        b < 64,
        c < 64,
    ensures
        ((w | (1u64 << b)) >> c) & 1u64 == (if b == c { 1u64 } else { (w >> c) & 1u64 }),
        ((w & !(1u64 << b)) >> c) & 1u64 == (if b == c { 0u64 } else { (w >> c) & 1u64 }),
{
    assert(((w | (1u64 << b)) >> c) & 1u64 == (if b == c { 1u64 } else { (w >> c) & 1u64 }))
        by (bit_vector)
        requires
            b < 64,
            c < 64,
    ;
    assert(((w & !(1u64 << b)) >> c) & 1u64 == (if b == c { 0u64 } else { (w >> c) & 1u64 }))
        by (bit_vector)
        requires
            b < 64,
            c < 64,
    ;
}

/// Row-major index of an in-bounds cell, and its inverse.
pub proof fn lemma_cell_index(w: int, h: int, x: int, y: int)
    requires
        0 <= x < w,
        0 <= y < h,
    ensures
        0 <= y * w + x < w * h,
        (y * w + x) / w == y,
        (y * w + x) % w == x,
        y * w <= (h - 1) * w,
{
    assert(0 <= y * w) by (nonlinear_arith)
        requires
            0 <= y,
            0 <= w,
    ;
    assert(y * w <= (h - 1) * w) by (nonlinear_arith)
        requires
            y <= h - 1,
            0 <= w,
    ;
    assert((h - 1) * w + w == w * h) by (nonlinear_arith);
    vstd::arithmetic::div_mod::lemma_fundamental_div_mod_converse(y * w + x, w, y, x);
}

/// Two in-bounds cells share an index only if they are the same cell.
pub proof fn lemma_cell_index_injective(w: int, h: int, x: int, y: int, x2: int, y2: int)
    requires
        0 <= x < w,
        0 <= y < h,
        0 <= x2 < w,
        0 <= y2 < h,
        y * w + x == y2 * w + x2,
    ensures
        x == x2,
        y == y2,
{
    lemma_cell_index(w, h, x, y);
    lemma_cell_index(w, h, x2, y2);
}

pub struct NavigationGrid {
    width: i32,
    height: i32,
    /// Side of a cell, in world units.
    cell_size: Fixed,
    /// World position of the grid's top-left corner.
    origin: Vec2Fixed,
    /// Bitset: 1 = blocked.
    blocked: Vec<u64>,
}

/// One axis of the cell round trip: the centre of cell `x` (cells of `c`
/// raw units from a corner at `o`) falls back into cell `x`.
proof fn lemma_axis_roundtrip(o: int, c: int, x: int)
    requires
        c > 0,
        0 <= x < 0x8000_0000,
        -0x8000_0000_0000_0000 <= o,
        o + x * c + c < 0x8000_0000_0000_0000,
        x * c + c < 0x8000_0000_0000_0000,
    ensures
        ({
            let k: int = 0x1_0000_0000;
            let half = fx_div(Fixed { bits: c as i64 }, Fixed { bits: 0x2_0000_0000 });
            let m = fx_mul(Fixed { bits: (x * k) as i64 }, Fixed { bits: c as i64 });
            let ctr = fx_add(fx_add(Fixed { bits: o as i64 }, m), half);
            fx_floor(fx_div(fx_sub(ctr, Fixed { bits: o as i64 }), Fixed { bits: c as i64 })) == x
        }),
{
    let k: int = 0x1_0000_0000;
    assert(0 <= x * k < 0x8000_0000_0000_0000) by (nonlinear_arith)
        requires
            0 <= x < 0x8000_0000,
            k == 0x1_0000_0000,
    ;
    assert(x * c >= 0) by (nonlinear_arith)
        requires
            x >= 0,
            c > 0,
    ;
    let h = trunc_div(c * k, 2 * k);
    assert(h == c / 2 && 0 <= h < c) by (nonlinear_arith)
        requires
            h == (c * k) / (2 * k),
            c > 0,
            k == 0x1_0000_0000,
    ;
    lemma_wrap64_small(h);
    assert((x * k * c) / k == x * c) by (nonlinear_arith)
        requires
            k > 0,
    ;
    lemma_wrap64_small(x * c);
    lemma_wrap64_small(o + x * c);
    lemma_wrap64_small(o + x * c + h);
    lemma_wrap64_small(x * c + h);
    let d = x * c + h;
    let q = (d * k) / c;
    assert(q == x * k + (h * k) / c && 0 <= (h * k) / c < k) by (nonlinear_arith)
        requires
            q == (d * k) / c,
            d == x * c + h,
            0 <= h < c,
            k == 0x1_0000_0000,
    {
        assert(d * k == (x * k) * c + h * k);
    }
    lemma_wrap64_small(q);
    assert(q / k == x) by (nonlinear_arith)
        requires
            q == x * k + (h * k) / c,
            0 <= (h * k) / c < k,
            k == 0x1_0000_0000,
    ;
}

impl NavigationGrid {
    #[verifier::type_invariant]
    closed spec fn inv(&self) -> bool {
        &&& 0 <= self.width * self.height <= i32::MAX
        &&& self.blocked@.len() == (self.width * self.height + 63) / 64
    }

    pub closed spec fn cols(&self) -> int {
        self.width as int
    }

    pub closed spec fn rows(&self) -> int {
        self.height as int
    }

    pub closed spec fn cell_len(&self) -> Fixed {
        self.cell_size
    }

    pub closed spec fn corner(&self) -> Vec2Fixed {
        self.origin
    }

    pub open spec fn inside(&self, x: int, y: int) -> bool {
        0 <= x && 0 <= y && x < self.cols() && y < self.rows()
    }

    /// Whether a cell is blocked; every cell outside the grid is.
    pub closed spec fn blocked_at(&self, x: int, y: int) -> bool {
        !self.inside(x, y) || bit_at(self.blocked@, y * self.width + x)
    }

    /// The centre of a cell of the grid falls back into that cell, when the
    /// cell size is positive and the coordinates do not overflow.
    pub proof fn law_cell_of_centre(&self, x: int, y: int)
        requires
            self.inside(x, y),
            self.cell_len().bits > 0,
            self.corner().x.bits + x * self.cell_len().bits + self.cell_len().bits
                < 0x8000_0000_0000_0000,
            self.corner().y.bits + y * self.cell_len().bits + self.cell_len().bits
                < 0x8000_0000_0000_0000,
            x * self.cell_len().bits + self.cell_len().bits < 0x8000_0000_0000_0000,
            y * self.cell_len().bits + self.cell_len().bits < 0x8000_0000_0000_0000,
        ensures
            self.cell_of(self.centre_of(x, y)) == (x, y),
    {
        lemma_axis_roundtrip(self.origin.x.bits as int, self.cell_size.bits as int, x);
        lemma_axis_roundtrip(self.origin.y.bits as int, self.cell_size.bits as int, y);
    }

    /// Every cell outside the grid counts as blocked.
    pub proof fn law_outside_is_blocked(&self, x: int, y: int)
        requires
            !self.inside(x, y),
        ensures
            self.blocked_at(x, y),
    {
    }

    /// Cell holding a world position, clamped into the grid.
    pub open spec fn cell_of(&self, pos: Vec2Fixed) -> (int, int) {
        (
            clamp_int(
                fx_floor(fx_div(fx_sub(pos.x, self.corner().x), self.cell_len())),
                0,
                self.cols() - 1,
            ),
            clamp_int(
                fx_floor(fx_div(fx_sub(pos.y, self.corner().y), self.cell_len())),
                0,
                self.rows() - 1,
            ),
        )
    }

    /// World position of a cell's centre.
    pub open spec fn centre_of(&self, x: int, y: int) -> Vec2Fixed {
        let half = fx_div(self.cell_len(), Fixed { bits: 0x2_0000_0000 });
        Vec2Fixed {
            x: fx_add(
                fx_add(self.corner().x, fx_mul(Fixed { bits: (x * 0x1_0000_0000) as i64 }, self.cell_len())),
                half,
            ),
            y: fx_add(
                fx_add(self.corner().y, fx_mul(Fixed { bits: (y * 0x1_0000_0000) as i64 }, self.cell_len())),
                half,
            ),
        }
    }

    /// An empty grid: no cell blocked. Panics (allocation or overflow) when
    /// the cell count is negative or does not fit in an `i32`, so such sizes
    /// are excluded.
    pub fn new(width: i32, height: i32, cell_size: Fixed, origin: Vec2Fixed) -> (r: NavigationGrid)
        requires
            0 <= width * height <= i32::MAX,
        ensures
            r.cols() == width,
            r.rows() == height,
            r.cell_len() == cell_size,
            r.corner() == origin,
            forall|x: int, y: int| r.inside(x, y) ==> !r.blocked_at(x, y),
    {
        let n_bits = (width * height) as usize;
        let n_u64 = (n_bits + 63) / 64;
        let blocked = vec![0u64; n_u64];
        let r = NavigationGrid { width, height, cell_size, origin, blocked };
        assert forall|x: int, y: int| r.inside(x, y) implies !r.blocked_at(x, y) by {
            lemma_cell_index(width as int, height as int, x, y);
            let i = y * width + x;
            assert(0 <= i / 64 < n_u64) by {
                vstd::arithmetic::div_mod::lemma_div_is_ordered(i, (width * height) as int, 64);
                vstd::arithmetic::div_mod::lemma_div_is_ordered(
                    (width * height) as int,
                    (width * height + 63) as int,
                    64,
                );
                vstd::arithmetic::div_mod::lemma_div_pos_is_pos(i, 64);
                assert((i / 64) < (width * height + 63) / 64) by (nonlinear_arith)
                    requires
                        0 <= i < width * height,
                ;
            }
            assert(r.blocked@[i / 64] == 0u64);
            let s = (i % 64) as u64;
            assert((0u64 >> s) & 1u64 == 0u64) by (bit_vector);
        }
        r
    }

    /// Empty 128×128 grid with cells of one unit, anchored at the origin.
    pub fn default_128() -> (r: NavigationGrid)
        ensures
            r.cols() == 128,
            r.rows() == 128,
            r.cell_len() == (Fixed { bits: 0x1_0000_0000 }),
            r.corner() == (Vec2Fixed { x: Fixed { bits: 0 }, y: Fixed { bits: 0 } }),
            forall|x: int, y: int| r.inside(x, y) ==> !r.blocked_at(x, y),
    {
        Self::new(128, 128, Fixed::from_num(1), Vec2Fixed::zero())
    }

    pub fn width(&self) -> (r: i32)
        ensures
            r == self.cols(),
            0 <= self.cols() * self.rows() <= i32::MAX,
    {
        proof {
            use_type_invariant(self);
        }
        self.width
    }

    pub fn height(&self) -> (r: i32)
        ensures
            r == self.rows(),
            0 <= self.cols() * self.rows() <= i32::MAX,
    {
        proof {
            use_type_invariant(self);
        }
        self.height
    }

    pub fn in_bounds(&self, x: i32, y: i32) -> (r: bool)
        ensures
            r == self.inside(x as int, y as int),
    {
        x >= 0 && y >= 0 && x < self.width && y < self.height
    }

    fn word_index(&self, x: i32, y: i32) -> (r: (usize, u64))
        requires
            self.inside(x as int, y as int),
        ensures
            r.0 == (y * self.cols() + x) / 64,
            r.1 == (y * self.cols() + x) % 64,
            r.0 < self.blocked@.len(),
    {
        proof {
            use_type_invariant(self);
            lemma_cell_index(self.width as int, self.height as int, x as int, y as int);
            let i = y * self.width + x;
            assert((i / 64) < (self.width * self.height + 63) / 64) by (nonlinear_arith)
                requires
                    0 <= i < self.width * self.height,
            ;
        }
        let idx = (y * self.width + x) as usize;
        (idx / 64, (idx % 64) as u64)
    }

    pub fn is_blocked(&self, x: i32, y: i32) -> (r: bool)
        ensures
            r == self.blocked_at(x as int, y as int),
            !r ==> self.inside(x as int, y as int),
    {
        if !self.in_bounds(x, y) {
            return true;
        }
        let (k, b) = self.word_index(x, y);
        (self.blocked[k] >> b) & 1 == 1
    }

    /// Blocks or frees one cell; a cell outside the grid is ignored.
    pub fn set_blocked(&mut self, x: i32, y: i32, blocked: bool)
        ensures
            final(self).cols() == old(self).cols(),
            final(self).rows() == old(self).rows(),
            final(self).cell_len() == old(self).cell_len(),
            final(self).corner() == old(self).corner(),
            forall|cx: int, cy: int|
                #![trigger final(self).blocked_at(cx, cy)]
                final(self).blocked_at(cx, cy) == (if cx == x && cy == y && old(self).inside(cx, cy) {
                    blocked
                } else {
                    old(self).blocked_at(cx, cy)
                }),
    {
        proof {
            use_type_invariant(&*self);
        }
        if !self.in_bounds(x, y) {
            return;
        }
        let (k, b) = self.word_index(x, y);
        let ghost old_words = self.blocked@;
        let word = self.blocked[k];
        let new_word = if blocked {
            word | (1u64 << b)
        } else {
            word & !(1u64 << b)
        };
        let mut words = self.blocked.clone();
        proof {
            assert forall|i: int| 0 <= i < words@.len() implies words@[i] == old_words[i] by {
                assert(cloned::<u64>(old_words[i], words@[i]));
            }
            assert(words@ =~= old_words);
        }
        words.set(k, new_word);
        self.blocked = words;
        proof {
            let w = self.width as int;
            let h = self.height as int;
            assert forall|cx: int, cy: int|
                #![trigger self.blocked_at(cx, cy)]
                self.blocked_at(cx, cy) == (if cx == x && cy == y && old(self).inside(cx, cy) {
                    blocked
                } else {
                    old(self).blocked_at(cx, cy)
                }) by {
                if self.inside(cx, cy) {
                    lemma_cell_index(w, h, cx, cy);
                    let i = cy * w + cx;
                    let j = y * w + x;
                    if i / 64 == k {
                        lemma_bit_update(word, b, (i % 64) as u64);
                        if i % 64 == j % 64 {
                            assert(i == j) by {
                                vstd::arithmetic::div_mod::lemma_fundamental_div_mod(i, 64);
                                vstd::arithmetic::div_mod::lemma_fundamental_div_mod(j, 64);
                            }
                            lemma_cell_index_injective(w, h, cx, cy, x as int, y as int);
                        } else {
                            assert(!(cx == x && cy == y));
                        }
                    } else {
                        assert(!(cx == x && cy == y));
                        assert(self.blocked@[i / 64] == old_words[i / 64]);
                    }
                }
            }
        }
    }

    /// World position → cell, clamped into the grid. The grid must have at
    /// least one row and one column and a non-zero cell size (the division
    /// and the clamp fail otherwise).
    pub fn world_to_cell(&self, pos: Vec2Fixed) -> (r: (i32, i32))
        requires
            self.cols() >= 1,
            self.rows() >= 1,
            self.cell_len().bits != 0,
        ensures
            r.0 == self.cell_of(pos).0,
            r.1 == self.cell_of(pos).1,
            self.inside(r.0 as int, r.1 as int),
    {
        let dx = pos.x - self.origin.x;
        let dy = pos.y - self.origin.y;
        let cx_raw = (dx / self.cell_size).to_num();
        let cy_raw = (dy / self.cell_size).to_num();
        let cx = if cx_raw < 0 {
            0
        } else if cx_raw > self.width - 1 {
            self.width - 1
        } else {
            cx_raw
        };
        let cy = if cy_raw < 0 {
            0
        } else if cy_raw > self.height - 1 {
            self.height - 1
        } else {
            cy_raw
        };
        (cx, cy)
    }

    /// Centre of a cell in world coordinates.
    pub fn cell_to_world(&self, x: i32, y: i32) -> (r: Vec2Fixed)
        ensures
            r == self.centre_of(x as int, y as int),
    {
        let half = self.cell_size / Fixed::from_num(2);
        Vec2Fixed {
            x: self.origin.x + Fixed::from_num(x) * self.cell_size + half,
            y: self.origin.y + Fixed::from_num(y) * self.cell_size + half,
        }
    }
}

impl Clone for NavigationGrid {
    fn clone(&self) -> (r: Self)
        ensures
            r.cols() == self.cols(),
            r.rows() == self.rows(),
            r.cell_len() == self.cell_len(),
            r.corner() == self.corner(),
            forall|x: int, y: int| r.blocked_at(x, y) == self.blocked_at(x, y),
    {
        proof {
            use_type_invariant(self);
        }
        let words = self.blocked.clone();
        proof {
            assert forall|i: int| 0 <= i < words@.len() implies words@[i] == self.blocked@[i] by {
                assert(cloned::<u64>(self.blocked@[i], words@[i]));
            }
            assert(words@ =~= self.blocked@);
        }
        NavigationGrid {
            width: self.width,
            height: self.height,
            cell_size: self.cell_size,
            origin: self.origin,
            blocked: words,
        }
    }
}

} // verus!
