use vstd::arithmetic::div_mod::{
    lemma_add_mod_noop, lemma_add_mod_noop_right, lemma_mod_bound, lemma_mod_multiples_vanish,
    lemma_mod_twice, lemma_small_mod,
};
use vstd::prelude::*;

verus! {

/// The abstract state of the display: the pixel grid in row-major order
/// (pixel (x, y) at index `y * 64 + x`), and the changed-since-created flag.
#[verifier::ext_equal]
pub ghost struct DisplayView {
    pub grid: Seq<u8>,
    pub dirty: bool,
}

/// A fixed 64x32 monochrome raster. Sprites are composited into it by XOR,
/// with coordinates wrapping at both edges; compositing reports whether any
/// lit pixel was turned off (a collision). Any mutation raises the `dirty`
/// flag, which an external renderer may poll to avoid redundant redraws.
#[derive(Debug)]
pub struct Display {
    frame_buffer: Vec<u8>,
    dirty: bool,
}

impl View for Display {
    type V = DisplayView;

    closed spec fn view(&self) -> DisplayView {
        DisplayView { grid: self.frame_buffer@, dirty: self.dirty }
    }
}

/// The flat buffer index of pixel column `cx`, row `cy`.
pub open spec fn pix(cx: int, cy: int) -> int {
    cy * 64 + cx
}

/// Whether bit `i` of sprite byte `b` is set, counting the most significant
/// bit as bit 0 (the leftmost drawn pixel).
pub open spec fn sprite_bit(b: u8, i: int) -> bool {
    b & (0x80u8 >> (i as u8)) != 0
}

/// An all-dark grid.
pub open spec fn blank_grid() -> Seq<u8> {
    Seq::new(2048, |t: int| 0u8)
}

/// A full grid whose pixels are all 0 or 1.
pub open spec fn grid_wf(grid: Seq<u8>) -> bool {
    &&& grid.len() == 2048
    &&& forall|t: int| 0 <= t < 2048 ==> grid[t] == 0 || grid[t] == 1
}

/// Whether one of the first `k` bits of byte `b`, drawn leftmost-first at
/// column `x0`, lands on column `cx` after wrapping.
pub open spec fn row_hits_upto(x0: int, b: u8, k: int, cx: int) -> bool {
    exists|i: int| 0 <= i < k && sprite_bit(b, i) && (x0 + i) % 64 == cx
}

/// Whether some set bit of byte `b`, drawn at column `x0`, lands on column `cx`.
pub open spec fn row_hits(x0: int, b: u8, cx: int) -> bool {
    row_hits_upto(x0, b, 8, cx)
}

/// Whether some set bit of `sprite`, drawn at `(x, y)` with wraparound,
/// lands on pixel (cx, cy).
pub open spec fn covers(x: int, y: int, sprite: Seq<u8>, cx: int, cy: int) -> bool {
    exists|j: int, i: int|
        0 <= j < sprite.len() && 0 <= i < 8 && sprite_bit(sprite[j], i)
            && (x + i) % 64 == cx && (y + j) % 32 == cy
}

/// The grid after XOR-compositing `sprite` at `(x, y)` with wraparound.
/// Each pixel that some set sprite bit lands on is flipped. This describes
/// the draw exactly for sprites of at most 32 rows, where no pixel is hit
/// by two different sprite bits.
pub open spec fn draw_grid(grid: Seq<u8>, x: int, y: int, sprite: Seq<u8>) -> Seq<u8> {
    Seq::new(
        grid.len(),
        |t: int|
            if covers(x, y, sprite, t % 64, t / 64) {
                grid[t] ^ 1
            } else {
                grid[t]
            },
    )
}

/// Whether compositing `sprite` at `(x, y)` lands some set bit on a pixel
/// that is already lit, which the XOR would turn off.
pub open spec fn draw_collision(grid: Seq<u8>, x: int, y: int, sprite: Seq<u8>) -> bool {
    exists|j: int, i: int|
        0 <= j < sprite.len() && 0 <= i < 8 && sprite_bit(sprite[j], i)
            && grid[pix((x + i) % 64, (y + j) % 32)] == 1
}

/// For `a` within two windows of `m`, reducing modulo `m` subtracts `m` at most once.
proof fn lemma_mod_window(a: int, m: int)
    requires
        0 < m,
        0 <= a < 2 * m,
    ensures
        a % m == if a < m {
            a
        } else {
            a - m
        },
{
    if a < m {
        lemma_small_mod(a as nat, m as nat);
    } else {
        lemma_mod_multiples_vanish(1, a - m, m);
        lemma_small_mod((a - m) as nat, m as nat);
    }
}

/// Two different bits of one sprite row land on two different columns.
proof fn lemma_cols_distinct(x0: int, i1: int, i2: int)
    requires
        0 <= x0 < 64,
        0 <= i1 < 8,
        0 <= i2 < 8,
        i1 != i2,
    ensures
        (x0 + i1) % 64 != (x0 + i2) % 64,
{
    lemma_mod_window(x0 + i1, 64);
    lemma_mod_window(x0 + i2, 64);
}

/// Two different rows of a sprite of at most 32 rows land on two different
/// display rows.
proof fn lemma_rows_distinct(y: int, j1: int, j2: int)
    requires
        0 <= j1 < 32,
        0 <= j2 < 32,
        j1 != j2,
    ensures
        (y + j1) % 32 != (y + j2) % 32,
{
    lemma_mod_bound(y, 32);
    lemma_add_mod_noop(y, j1, 32);
    lemma_add_mod_noop(y, j2, 32);
    lemma_small_mod(j1 as nat, 32);
    lemma_small_mod(j2 as nat, 32);
    lemma_mod_window(y % 32 + j1, 32);
    lemma_mod_window(y % 32 + j2, 32);
}

impl Display {
    /// The grid has its full size and holds only 0/1 pixel values.
    pub open spec fn wf(self) -> bool {
        grid_wf(self@.grid)
    }

    /// A display with every pixel dark and the changed flag raised.
    pub fn new() -> (d: Display)
        ensures
            d.wf(),
            d@.grid == blank_grid(),
            d@.dirty,
    {
        let d = Display { frame_buffer: blank_buffer(), dirty: true };
        proof {
            assert(d@.grid =~= blank_grid());
        }
        d
    }

    /// Darkens every pixel and marks the display changed.
    pub fn cls(&mut self)
        requires
            old(self).wf(),
        ensures
            final(self).wf(),
            final(self)@.grid == blank_grid(),
            final(self)@.dirty,
    {
        self.frame_buffer = blank_buffer();
        self.dirty = true;
        proof {
            assert(self@.grid =~= blank_grid());
        }
    }

    /// Read-only access to the pixel grid, for an external renderer.
    pub fn get_frame_buffer(&self) -> (fb: &Vec<u8>)
        ensures
            fb@ == self@.grid,
    {
        &self.frame_buffer
    }

    /// Whether the grid changed since the display was created. The flag is
    /// never lowered here: consuming it is the renderer's business.
    pub fn is_dirty(&self) -> (dirty: bool)
        ensures
            dirty == self@.dirty,
    {
        self.dirty
    }

    /// XOR-composites one sprite row byte at column `x0` of row `yy`, and
    /// reports whether a lit pixel was turned off.
    fn draw_byte(&mut self, x0: usize, yy: usize, b: u8) -> (col: bool)
        requires
            old(self).wf(),
            x0 < 64,
            yy < 32,
        ensures
            final(self).wf(),
            final(self)@.dirty == old(self)@.dirty,
            forall|t: int|
                0 <= t < 2048 ==> final(self)@.grid[t] == (
                if t / 64 == yy as int && row_hits(x0 as int, b, t % 64) {
                    old(self)@.grid[t] ^ 1
                } else {
                    old(self)@.grid[t]
                }),
            col == exists|i: int|
                0 <= i < 8 && sprite_bit(b, i)
                    && old(self)@.grid[pix((x0 + i) % 64, yy as int)] == 1,
    {
        let mut col: bool = false;
        let mut i: usize = 0;
        while i < 8
            invariant
                self.wf(),
                x0 < 64,
                yy < 32,
                0 <= i <= 8,
                self@.dirty == old(self)@.dirty,
                forall|t: int|
                    0 <= t < 2048 ==> self@.grid[t] == (
                    if t / 64 == yy as int && row_hits_upto(x0 as int, b, i as int, t % 64) {
                        old(self)@.grid[t] ^ 1
                    } else {
                        old(self)@.grid[t]
                    }),
                col == exists|i2: int|
                    0 <= i2 < i && sprite_bit(b, i2)
                        && old(self)@.grid[pix((x0 + i2) % 64, yy as int)] == 1,
            decreases 8 - i,
        {
            let ghost prev = self@.grid;
            if (b & (0x80u8 >> (i as u8))) != 0 {
                let nx: usize = (x0 + i) % 64;
                let t: usize = yy * 64 + nx;
                proof {
                    lemma_mod_window(x0 as int + i as int, 64);
                    assert(t < 2048);
                    assert(t as int / 64 == yy as int);
                    assert(t as int % 64 == nx as int);
                    // bit i has not landed on this column before
                    assert forall|i2: int| 0 <= i2 < i implies #[trigger] ((x0 as int + i2) % 64)
                        != nx as int by {
                        lemma_cols_distinct(x0 as int, i2, i as int);
                    }
                    assert(!row_hits_upto(x0 as int, b, i as int, nx as int));
                    assert(self@.grid[t as int] == old(self)@.grid[t as int]);
                }
                let p: u8 = self.frame_buffer[t];
                if p == 0x01 {
                    col = true;
                }
                proof {
                    assert(pix((x0 as int + i as int) % 64, yy as int) == t as int);
                    if p == 0x01 {
                        assert(sprite_bit(b, i as int)
                            && old(self)@.grid[pix((x0 as int + i as int) % 64, yy as int)] == 1);
                        assert(col == exists|i2: int|
                            0 <= i2 < i as int + 1 && sprite_bit(b, i2)
                                && old(self)@.grid[pix((x0 + i2) % 64, yy as int)] == 1);
                    } else {
                        if exists|i2: int|
                            0 <= i2 < i as int + 1 && sprite_bit(b, i2)
                                && old(self)@.grid[pix((x0 + i2) % 64, yy as int)] == 1 {
                            let i2 = choose|i2: int|
                                0 <= i2 < i as int + 1 && sprite_bit(b, i2)
                                    && old(self)@.grid[pix((x0 + i2) % 64, yy as int)] == 1;
                            assert(i2 != i as int);
                        }
                    }
                }
                self.frame_buffer.set(t, p ^ 0x01);
                proof {
                    assert(p ^ 0x01 == (if p == 1 { 0u8 } else { 1u8 })) by (bit_vector)
                        requires p == 0 || p == 1;
                    assert(pix(nx as int, yy as int) == t as int);
                    assert forall|t2: int| 0 <= t2 < 2048 implies self@.grid[t2] == (
                        if t2 / 64 == yy as int
                            && row_hits_upto(x0 as int, b, i as int + 1, t2 % 64) {
                            old(self)@.grid[t2] ^ 1
                        } else {
                            old(self)@.grid[t2]
                        }) by {
                        if t2 == t as int {
                            assert(sprite_bit(b, i as int));
                            assert(row_hits_upto(x0 as int, b, i as int + 1, t2 % 64));
                            assert(prev[t2] == old(self)@.grid[t2]);
                            assert(prev[t2] == 0 || prev[t2] == 1);
                            assert(prev[t2] ^ 0x01 == old(self)@.grid[t2] ^ 1);
                        } else {
                            assert(self@.grid[t2] == prev[t2]);
                            if t2 / 64 == yy as int {
                                assert(row_hits_upto(x0 as int, b, i as int + 1, t2 % 64)
                                    == row_hits_upto(x0 as int, b, i as int, t2 % 64)) by {
                                    if row_hits_upto(x0 as int, b, i as int + 1, t2 % 64) {
                                        let i2 = choose|i2: int|
                                            0 <= i2 < i as int + 1 && sprite_bit(b, i2)
                                                && (x0 as int + i2) % 64 == t2 % 64;
                                        if i2 == i as int {
                                            lemma_mod_bound(t2, 64);
                                            assert(t2 == pix(t2 % 64, t2 / 64));
                                            assert(t2 == t as int);
                                            assert(false);
                                        }
                                        assert(row_hits_upto(x0 as int, b, i as int, t2 % 64));
                                    }
                                }
                            }
                        }
                    }
                    // the flipped pixel stays a 0/1 value
                    assert forall|t2: int| 0 <= t2 < 2048 implies self@.grid[t2] == 0
                        || self@.grid[t2] == 1 by {
                        if t2 == t as int {
                            assert(prev[t2] == 0 || prev[t2] == 1);
                        }
                    }
                }
            } else {
                proof {
                    assert(!sprite_bit(b, i as int));
                    assert forall|cx: int|
                        row_hits_upto(x0 as int, b, i as int + 1, cx)
                            == row_hits_upto(x0 as int, b, i as int, cx) by {
                        if row_hits_upto(x0 as int, b, i as int + 1, cx) {
                            let i2 = choose|i2: int|
                                0 <= i2 < i as int + 1 && sprite_bit(b, i2)
                                    && (x0 as int + i2) % 64 == cx;
                            assert(i2 != i as int);
                            assert(row_hits_upto(x0 as int, b, i as int, cx));
                        }
                    }
                    if exists|i2: int|
                        0 <= i2 < i as int + 1 && sprite_bit(b, i2)
                            && old(self)@.grid[pix((x0 + i2) % 64, yy as int)] == 1 {
                        let i2 = choose|i2: int|
                            0 <= i2 < i as int + 1 && sprite_bit(b, i2)
                                && old(self)@.grid[pix((x0 + i2) % 64, yy as int)] == 1;
                        assert(i2 != i as int);
                    }
                }
            }
            i = i + 1;
        }
        col
    }

    /// XOR-composites `sprite` (one byte per row, most significant bit
    /// leftmost) at `(x, y)`. Coordinates wrap at both edges rather than
    /// clip. Returns whether any composited bit turned a lit pixel off, and
    /// marks the display changed. A sprite has at most 32 rows (the
    /// instruction engine never draws more than 15), so no pixel is touched
    /// twice.
    pub fn draw_sprite(&mut self, x: usize, y: usize, sprite: &[u8]) -> (collision: bool)
        requires
            old(self).wf(),
            sprite@.len() <= 32,
        ensures
            final(self).wf(),
            final(self)@.grid == draw_grid(old(self)@.grid, x as int, y as int, sprite@),
            collision == draw_collision(old(self)@.grid, x as int, y as int, sprite@),
            final(self)@.dirty,
    {
        self.dirty = true;
        let ghost g0 = self@.grid;
        let x0: usize = x % 64;
        let y0: usize = y % 32;
        let n: usize = sprite.len();
        let mut collision: bool = false;
        let mut j: usize = 0;
        proof {
            assert(self@.grid =~= draw_grid(g0, x as int, y as int, sprite@.subrange(0, 0)));
        }
        while j < n
            invariant
                self.wf(),
                self@.dirty,
                0 <= j <= n,
                n == sprite@.len(),
                n <= 32,
                x0 == x as int % 64,
                y0 == y as int % 32,
                grid_wf(g0),
                self@.grid == draw_grid(g0, x as int, y as int, sprite@.subrange(0, j as int)),
                collision == draw_collision(g0, x as int, y as int, sprite@.subrange(0, j as int)),
            decreases n - j,
        {
            let yy: usize = (y0 + j) % 32;
            let b: u8 = sprite[j];
            let ghost g1 = self@.grid;
            proof {
                lemma_mod_bound(x as int, 64);
                lemma_mod_bound(y as int, 32);
                lemma_small_mod(j as nat, 32);
                lemma_add_mod_noop(y as int, j as int, 32);
                assert(yy as int == (y as int + j as int) % 32);
                lemma_mod_bound(y as int + j as int, 32);
            }
            let c = self.draw_byte(x0, yy, b);
            proof {
                assert forall|i2: int| 0 <= i2 < 8 implies #[trigger] ((x0 as int + i2) % 64)
                    == (x as int + i2) % 64 by {
                    lemma_small_mod(i2 as nat, 64);
                    lemma_add_mod_noop(x as int, i2, 64);
                }
                assert forall|cx: int| row_hits(x0 as int, b, cx) == row_hits(x as int % 64, b, cx)
                    by {}
                lemma_draw_step(
                    g0,
                    g1,
                    self@.grid,
                    x as int,
                    y as int,
                    sprite@,
                    j as int,
                    collision,
                    c,
                );
            }
            collision = collision || c;
            j = j + 1;
        }
        proof {
            assert(sprite@.subrange(0, n as int) =~= sprite@);
        }
        collision
    }
}

/// Sprite coordinates wrap at the edges rather than clip: a draw at any
/// `(x, y)` changes the grid and reports collisions exactly as the draw at
/// `(x mod 64, y mod 32)` does, so a sprite crossing an edge reappears at
/// the opposite edge.
pub proof fn lemma_draw_wraps(grid: Seq<u8>, x: int, y: int, sprite: Seq<u8>)
    ensures
        draw_grid(grid, x, y, sprite) == draw_grid(grid, x % 64, y % 32, sprite),
        draw_collision(grid, x, y, sprite) == draw_collision(grid, x % 64, y % 32, sprite),
{
    assert forall|i: int| 0 <= i < 8 implies #[trigger] ((x % 64 + i) % 64) == (x + i) % 64 by {
        lemma_small_mod(i as nat, 64);
        lemma_add_mod_noop(x, i, 64);
        lemma_mod_twice(x, 64);
    }
    assert forall|j: int| 0 <= j < sprite.len() implies #[trigger] ((y % 32 + j) % 32) == (y + j)
        % 32 by {
        lemma_mod_bound(j, 32);
        lemma_mod_twice(y, 32);
        lemma_add_mod_noop(y, j, 32);
        lemma_add_mod_noop_right(y, j, 32);
    }
    assert forall|cx: int, cy: int|
        covers(x, y, sprite, cx, cy) == covers(x % 64, y % 32, sprite, cx, cy) by {
        if covers(x, y, sprite, cx, cy) {
            let (j, i) = choose|j: int, i: int|
                0 <= j < sprite.len() && 0 <= i < 8 && sprite_bit(sprite[j], i)
                    && (x + i) % 64 == cx && (y + j) % 32 == cy;
            assert((x % 64 + i) % 64 == cx && (y % 32 + j) % 32 == cy);
            assert(covers(x % 64, y % 32, sprite, cx, cy));
        }
        if covers(x % 64, y % 32, sprite, cx, cy) {
            let (j, i) = choose|j: int, i: int|
                0 <= j < sprite.len() && 0 <= i < 8 && sprite_bit(sprite[j], i)
                    && (x % 64 + i) % 64 == cx && (y % 32 + j) % 32 == cy;
            assert((x + i) % 64 == cx && (y + j) % 32 == cy);
            assert(covers(x, y, sprite, cx, cy));
        }
    }
    assert(draw_grid(grid, x, y, sprite) =~= draw_grid(grid, x % 64, y % 32, sprite));
    if draw_collision(grid, x, y, sprite) {
        let (j, i) = choose|j: int, i: int|
            0 <= j < sprite.len() && 0 <= i < 8 && sprite_bit(sprite[j], i)
                && grid[pix((x + i) % 64, (y + j) % 32)] == 1;
        assert(grid[pix((x % 64 + i) % 64, (y % 32 + j) % 32)] == 1);
        assert(draw_collision(grid, x % 64, y % 32, sprite));
    }
    if draw_collision(grid, x % 64, y % 32, sprite) {
        let (j, i) = choose|j: int, i: int|
            0 <= j < sprite.len() && 0 <= i < 8 && sprite_bit(sprite[j], i)
                && grid[pix((x % 64 + i) % 64, (y % 32 + j) % 32)] == 1;
        assert(grid[pix((x + i) % 64, (y + j) % 32)] == 1);
        assert(draw_collision(grid, x, y, sprite));
    }
}

/// The two xor facts the double-draw law rests on.
proof fn lemma_xor_one(a: u8)
    by (bit_vector)
    ensures
        (a ^ 1) ^ 1 == a,
        (a ^ 1 == 1) <==> (a == 0),
{
}

/// Compositing the same sprite twice at the same spot restores every pixel,
/// and the second draw reports a collision exactly where the first draw lit
/// a pixel: where a set sprite bit landed on a dark pixel.
pub proof fn lemma_draw_twice(grid: Seq<u8>, x: int, y: int, sprite: Seq<u8>)
    requires
        grid.len() == 2048,
    ensures
        draw_grid(draw_grid(grid, x, y, sprite), x, y, sprite) == grid,
        draw_collision(draw_grid(grid, x, y, sprite), x, y, sprite) == (exists|j: int, i: int|
            0 <= j < sprite.len() && 0 <= i < 8 && sprite_bit(sprite[j], i)
                && grid[pix((x + i) % 64, (y + j) % 32)] == 0),
{
    let g1 = draw_grid(grid, x, y, sprite);
    assert forall|t: int| 0 <= t < 2048 implies draw_grid(g1, x, y, sprite)[t] == grid[t] by {
        lemma_xor_one(grid[t]);
    }
    assert(draw_grid(g1, x, y, sprite) =~= grid);

    // every pixel some sprite bit lands on reads flipped in the first draw
    assert forall|j: int, i: int|
        0 <= j < sprite.len() && 0 <= i < 8 && sprite_bit(sprite[j], i) implies {
        let t = pix((x + i) % 64, (y + j) % 32);
        g1[t] == (grid[t] ^ 1)
    } by {
        lemma_mod_bound(x + i, 64);
        lemma_mod_bound(y + j, 32);
        let cx = (x + i) % 64;
        let cy = (y + j) % 32;
        let t = pix(cx, cy);
        assert(0 <= t < 2048);
        assert(t % 64 == cx && t / 64 == cy);
        assert(covers(x, y, sprite, cx, cy));
    }
    if draw_collision(g1, x, y, sprite) {
        let (j, i) = choose|j: int, i: int|
            0 <= j < sprite.len() && 0 <= i < 8 && sprite_bit(sprite[j], i)
                && g1[pix((x + i) % 64, (y + j) % 32)] == 1;
        lemma_xor_one(grid[pix((x + i) % 64, (y + j) % 32)]);
        assert(grid[pix((x + i) % 64, (y + j) % 32)] == 0);
    }
    if exists|j: int, i: int|
        0 <= j < sprite.len() && 0 <= i < 8 && sprite_bit(sprite[j], i)
            && grid[pix((x + i) % 64, (y + j) % 32)] == 0 {
        let (j, i) = choose|j: int, i: int|
            0 <= j < sprite.len() && 0 <= i < 8 && sprite_bit(sprite[j], i)
                && grid[pix((x + i) % 64, (y + j) % 32)] == 0;
        lemma_xor_one(grid[pix((x + i) % 64, (y + j) % 32)]);
        assert(g1[pix((x + i) % 64, (y + j) % 32)] == 1);
        assert(draw_collision(g1, x, y, sprite));
    }
}

/// A zeroed frame buffer.
fn blank_buffer() -> (fb: Vec<u8>)
    ensures
        fb@.len() == 2048,
        forall|t: int| 0 <= t < 2048 ==> fb@[t] == 0,
{
    let mut fb: Vec<u8> = Vec::new();
    while fb.len() < 2048
        invariant
            fb@.len() <= 2048,
            forall|t: int| 0 <= t < fb@.len() ==> fb@[t] == 0,
        decreases 2048 - fb@.len(),
    {
        fb.push(0);
    }
    fb
}

/// Drawing one more sprite row on top of the rows before it extends the
/// composited grid and the collision report by exactly that row.
proof fn lemma_draw_step(
    g0: Seq<u8>,
    g1: Seq<u8>,
    g2: Seq<u8>,
    x: int,
    y: int,
    sprite: Seq<u8>,
    j: int,
    c1: bool,
    c2: bool,
)
    requires
        grid_wf(g0),
        g2.len() == 2048,
        sprite.len() <= 32,
        0 <= j < sprite.len(),
        g1 == draw_grid(g0, x, y, sprite.subrange(0, j)),
        forall|t: int|
            0 <= t < 2048 ==> g2[t] == (
            if t / 64 == (y + j) % 32 && row_hits(x % 64, sprite[j], t % 64) {
                g1[t] ^ 1
            } else {
                g1[t]
            }),
        c2 == exists|i: int|
            0 <= i < 8 && sprite_bit(sprite[j], i)
                && g1[pix((x % 64 + i) % 64, (y + j) % 32)] == 1,
        c1 == draw_collision(g0, x, y, sprite.subrange(0, j)),
    ensures
        g2 == draw_grid(g0, x, y, sprite.subrange(0, j + 1)),
        (c1 || c2) == draw_collision(g0, x, y, sprite.subrange(0, j + 1)),
{
    let s1 = sprite.subrange(0, j);
    let s2 = sprite.subrange(0, j + 1);
    assert(s2 =~= s1.push(sprite[j]));
    let yj = (y + j) % 32;
    lemma_mod_bound(y + j, 32);

    assert forall|i2: int| 0 <= i2 < 8 implies #[trigger] ((x % 64 + i2) % 64) == (x + i2) % 64 by {
        lemma_small_mod(i2 as nat, 64);
        lemma_add_mod_noop(x, i2, 64);
    }

    // a pixel of row yj is covered by the first j rows only if two sprite
    // rows land on one display row, which cannot happen
    assert forall|cx: int| !covers(x, y, s1, cx, yj) by {
        if covers(x, y, s1, cx, yj) {
            let (j2, i2) = choose|j2: int, i2: int|
                0 <= j2 < s1.len() && 0 <= i2 < 8 && sprite_bit(s1[j2], i2)
                    && (x + i2) % 64 == cx && (y + j2) % 32 == yj;
            lemma_rows_distinct(y, j2, j);
        }
    }

    // grid equality, pointwise
    assert forall|t: int| 0 <= t < 2048 implies g2[t] == (
        if covers(x, y, s2, t % 64, t / 64) {
            g0[t] ^ 1
        } else {
            g0[t]
        }) by {
        lemma_mod_bound(t, 64);
        let cx = t % 64;
        let cy = t / 64;
        assert(t == pix(cx, cy));
        assert(0 <= cy < 32);
        if t / 64 == yj && row_hits(x % 64, sprite[j], t % 64) {
            // hit by the new row; not covered by the earlier rows
            assert(!covers(x, y, s1, cx, cy));
            assert(g1[t] == g0[t]);
            let i2 = choose|i2: int|
                0 <= i2 < 8 && sprite_bit(sprite[j], i2) && (x % 64 + i2) % 64 == cx;
            assert(sprite_bit(s2[j], i2) && (x + i2) % 64 == cx && (y + j) % 32 == cy);
            assert(covers(x, y, s2, cx, cy));
            assert(g2[t] == g0[t] ^ 1);
        } else {
            assert(g2[t] == g1[t]);
            assert(covers(x, y, s2, cx, cy) == covers(x, y, s1, cx, cy)) by {
                if covers(x, y, s2, cx, cy) {
                    let (j2, i2) = choose|j2: int, i2: int|
                        0 <= j2 < s2.len() && 0 <= i2 < 8 && sprite_bit(s2[j2], i2)
                            && (x + i2) % 64 == cx && (y + j2) % 32 == cy;
                    if j2 == j {
                        assert(cy == yj);
                        assert(row_hits(x % 64, sprite[j], cx));
                        assert(false);
                    } else {
                        assert(sprite_bit(s1[j2], i2));
                        assert(covers(x, y, s1, cx, cy));
                    }
                } else {
                    if covers(x, y, s1, cx, cy) {
                        let (j2, i2) = choose|j2: int, i2: int|
                            0 <= j2 < s1.len() && 0 <= i2 < 8 && sprite_bit(s1[j2], i2)
                                && (x + i2) % 64 == cx && (y + j2) % 32 == cy;
                        assert(sprite_bit(s2[j2], i2));
                        assert(covers(x, y, s2, cx, cy));
                    }
                }
            }
        }
    }
    assert(g2 =~= draw_grid(g0, x, y, s2));

    // collision report, split between the earlier rows and the new one
    assert forall|i2: int| 0 <= i2 < 8 && sprite_bit(sprite[j], i2) implies g1[pix(
        (x + i2) % 64,
        yj,
    )] == g0[pix((x + i2) % 64, yj)] by {
        lemma_mod_bound(x + i2, 64);
        assert(!covers(x, y, s1, (x + i2) % 64, yj));
        assert(pix((x + i2) % 64, yj) == yj * 64 + (x + i2) % 64);
        assert(0 <= pix((x + i2) % 64, yj) < 2048);
        assert(pix((x + i2) % 64, yj) / 64 == yj);
        assert(pix((x + i2) % 64, yj) % 64 == (x + i2) % 64);
    }
    if c1 {
        let (j2, i2) = choose|j2: int, i2: int|
            0 <= j2 < s1.len() && 0 <= i2 < 8 && sprite_bit(s1[j2], i2)
                && g0[pix((x + i2) % 64, (y + j2) % 32)] == 1;
        assert(sprite_bit(s2[j2], i2));
        assert(draw_collision(g0, x, y, s2));
    }
    if c2 {
        let i2 = choose|i2: int|
            0 <= i2 < 8 && sprite_bit(sprite[j], i2)
                && g1[pix((x % 64 + i2) % 64, yj)] == 1;
        assert(g0[pix((x + i2) % 64, yj)] == 1);
        assert(sprite_bit(s2[j], i2));
        assert(draw_collision(g0, x, y, s2));
    }
    if !c1 && !c2 {
        if draw_collision(g0, x, y, s2) {
            let (j2, i2) = choose|j2: int, i2: int|
                0 <= j2 < s2.len() && 0 <= i2 < 8 && sprite_bit(s2[j2], i2)
                    && g0[pix((x + i2) % 64, (y + j2) % 32)] == 1;
            if j2 == j {
                assert(g1[pix((x % 64 + i2) % 64, yj)] == 1);
                assert(false);
            } else {
                assert(sprite_bit(s1[j2], i2));
                assert(draw_collision(g0, x, y, s1));
                assert(false);
            }
        }
    }
}

} // verus!
