//! The pixel buffer and its mathematical model.

use vstd::prelude::*;

verus! {

/// What a frame buffer holds, as mathematics: its extent, its cells in
/// row-major order (cell `(x, y)` at index `y * width + x`), the colour that
/// `clear` fills with and the colour that drawing writes.
pub struct FramebufferView {
    pub width: nat,
    pub height: nat,
    pub pixels: Seq<u32>,
    pub background: u32,
    pub color: u32,
}

impl FramebufferView {
    /// There is exactly one cell per grid position.
    pub open spec fn wf(self) -> bool {
        self.pixels.len() == self.width * self.height
    }

    /// `(x, y)` names a cell of the grid.
    pub open spec fn in_bounds(self, x: int, y: int) -> bool {
        0 <= x < self.width && 0 <= y < self.height
    }

    /// The colour stored at `(x, y)`; 0 outside the grid.
    pub open spec fn color_at(self, x: int, y: int) -> u32 {
        if self.in_bounds(x, y) {
            self.pixels[y * self.width + x]
        } else {
            0
        }
    }

    /// A freshly made buffer: every cell 0, background 0, drawing colour
    /// all ones.
    pub open spec fn blank(width: nat, height: nat) -> Self {
        FramebufferView {
            width,
            height,
            pixels: Seq::new(width * height, |i: int| 0u32),
            background: 0,
            color: 0xFFFF_FFFF,
        }
    }

    /// The same buffer with another background colour; no cell changes.
    pub open spec fn with_background(self, c: u32) -> Self {
        FramebufferView { background: c, ..self }
    }

    /// The same buffer with another drawing colour; no cell changes.
    pub open spec fn with_color(self, c: u32) -> Self {
        FramebufferView { color: c, ..self }
    }

    /// Every cell overwritten with the background colour.
    pub open spec fn cleared(self) -> Self {
        FramebufferView {
            pixels: Seq::new(self.pixels.len(), |i: int| self.background),
            ..self
        }
    }

    /// The grid position of the cell stored at index `i`.
    pub open spec fn cell_of(self, i: int) -> (int, int) {
        (i % (self.width as int), i / (self.width as int))
    }

    /// The cells of `cells` that lie on the grid take the drawing colour;
    /// every other cell keeps its value. Positions off the grid are ignored.
    pub open spec fn paint(self, cells: Set<(int, int)>) -> Self {
        FramebufferView {
            pixels: Seq::new(
                self.pixels.len(),
                |i: int|
                    if cells.contains(self.cell_of(i)) {
                        self.color
                    } else {
                        self.pixels[i]
                    },
            ),
            ..self
        }
    }

    /// One point drawn at `(x, y)`.
    pub open spec fn plot(self, x: int, y: int) -> Self {
        self.paint(set![(x, y)])
    }
}

/// Row-major indexing is a bijection between grid positions and indices:
/// the cell `(x, y)` of a `w` by `h` grid sits at an index below `w * h`,
/// and dividing that index by `w` gives the position back.
pub proof fn lemma_cell_index(x: int, y: int, w: int, h: int)
    requires
        0 <= x < w,
        0 <= y < h,
    ensures
        0 <= y * w,
        y * w + w <= w * h,
        0 <= y * w + x < w * h,
        (y * w + x) % w == x,
        (y * w + x) / w == y,
{
    assert(y * w <= (h - 1) * w) by (nonlinear_arith)
        requires
            0 <= y <= h - 1,
            0 < w,
    ;
    assert((h - 1) * w + w == w * h) by (nonlinear_arith);
    assert(0 <= y * w) by (nonlinear_arith)
        requires
            0 <= y,
            0 < w,
    ;
    vstd::arithmetic::div_mod::lemma_fundamental_div_mod_converse(y * w + x, w, y, x);
}

/// An index below `w * h` decomposes into a grid position.
pub proof fn lemma_index_cell(i: int, w: int, h: int)
    requires
        0 <= i < w * h,
        0 <= w,
        0 <= h,
    ensures
        0 < w,
        0 <= i % w < w,
        0 <= i / w < h,
        (i / w) * w + i % w == i,
{
    assert(0 < w) by (nonlinear_arith)
        requires
            0 <= i < w * h,
            0 <= w,
            0 <= h,
    ;
    vstd::arithmetic::div_mod::lemma_fundamental_div_mod(i, w);
    vstd::arithmetic::div_mod::lemma_mod_bound(i, w);
    let q = i / w;
    assert(w * q == q * w) by (nonlinear_arith);
    assert(0 <= q < h) by (nonlinear_arith)
        requires
            0 < w,
            0 <= h,
            0 <= i < w * h,
            i == q * w + i % w,
            0 <= i % w < w,
    ;
}

/// Plotting a point on the grid rewrites exactly its cell.
pub proof fn lemma_plot_on_grid(v: FramebufferView, x: int, y: int)
    requires
        v.wf(),
        v.in_bounds(x, y),
    ensures
        v.plot(x, y).pixels == v.pixels.update(y * v.width + x, v.color),
        v.plot(x, y).color_at(x, y) == v.color,
{
    let w = v.width as int;
    let h = v.height as int;
    lemma_cell_index(x, y, w, h);
    assert forall|i: int| 0 <= i < v.pixels.len() implies #[trigger] v.plot(x, y).pixels[i]
        == v.pixels.update(y * w + x, v.color)[i] by {
        lemma_index_cell(i, w, h);
    }
    assert(v.plot(x, y).pixels =~= v.pixels.update(y * w + x, v.color));
}

/// Plotting a point off the grid changes nothing.
pub proof fn lemma_plot_off_grid(v: FramebufferView, x: int, y: int)
    requires
        v.wf(),
        !v.in_bounds(x, y),
    ensures
        v.plot(x, y) == v,
{
    let w = v.width as int;
    let h = v.height as int;
    assert forall|i: int| 0 <= i < v.pixels.len() implies #[trigger] v.plot(x, y).pixels[i]
        == v.pixels[i] by {
        lemma_index_cell(i, w, h);
    }
    assert(v.plot(x, y).pixels =~= v.pixels);
}

/// After painting, a cell of the grid holds the drawing colour if it was
/// painted and its old value if not; extent and colours stay as they were.
pub proof fn lemma_paint_color_at(v: FramebufferView, cells: Set<(int, int)>, x: int, y: int)
    requires
        v.wf(),
    ensures
        v.paint(cells).wf(),
        v.paint(cells).color_at(x, y) == if v.in_bounds(x, y) && cells.contains((x, y)) {
            v.color
        } else {
            v.color_at(x, y)
        },
{
    if v.in_bounds(x, y) {
        lemma_cell_index(x, y, v.width as int, v.height as int);
    }
}

/// A point drawn on the grid reads back as the drawing colour and leaves
/// every other cell alone. A point off the grid changes nothing, and reading
/// off the grid gives 0.
pub proof fn lemma_point_then_get_color(v: FramebufferView, x: int, y: int)
    requires
        v.wf(),
    ensures
        v.in_bounds(x, y) ==> v.plot(x, y).color_at(x, y) == v.color,
        !v.in_bounds(x, y) ==> v.plot(x, y) == v && v.plot(x, y).color_at(x, y) == 0,
        forall|x2: int, y2: int|
            (x2, y2) != (x, y) ==> #[trigger] v.plot(x, y).color_at(x2, y2) == v.color_at(x2, y2),
{
    if v.in_bounds(x, y) {
        lemma_plot_on_grid(v, x, y);
    } else {
        lemma_plot_off_grid(v, x, y);
    }
    assert forall|x2: int, y2: int| (x2, y2) != (x, y) implies #[trigger] v.plot(x, y).color_at(
        x2,
        y2,
    ) == v.color_at(x2, y2) by {
        lemma_paint_color_at(v, set![(x, y)], x2, y2);
    }
}

/// After the background is set to `c` and the buffer cleared, every cell
/// holds `c`.
pub proof fn lemma_clear_after_set_background(v: FramebufferView, c: u32)
    requires
        v.wf(),
    ensures
        v.with_background(c).cleared().wf(),
        forall|i: int|
            0 <= i < v.pixels.len() ==> #[trigger] v.with_background(c).cleared().pixels[i] == c,
        forall|x: int, y: int|
            v.in_bounds(x, y) ==> #[trigger] v.with_background(c).cleared().color_at(x, y) == c,
{
    assert forall|x: int, y: int| v.in_bounds(x, y) implies #[trigger] v.with_background(
        c,
    ).cleared().color_at(x, y) == c by {
        lemma_cell_index(x, y, v.width as int, v.height as int);
    }
}

/// Painting nothing changes nothing.
pub proof fn lemma_paint_nothing(v: FramebufferView)
    ensures
        v.paint(Set::empty()) == v,
{
    assert(v.paint(Set::empty()).pixels =~= v.pixels);
}

/// Painting one set of cells and then another, in one colour, paints their
/// union.
pub proof fn lemma_paint_twice(v: FramebufferView, first: Set<(int, int)>, second: Set<(int, int)>)
    ensures
        v.paint(first).paint(second) == v.paint(first.union(second)),
{
    assert(v.paint(first).paint(second).pixels =~= v.paint(first.union(second)).pixels);
}

/// A grid of packed colour values with a background colour and a current
/// drawing colour.
pub struct Framebuffer {
    width: usize,
    height: usize,
    buffer: Vec<u32>,
    background_color: u32,
    current_color: u32,
}

impl View for Framebuffer {
    type V = FramebufferView;

    closed spec fn view(&self) -> FramebufferView {
        FramebufferView {
            width: self.width as nat,
            height: self.height as nat,
            pixels: Seq::new((self.width * self.height) as nat, |i: int| self.buffer@[i]),
            background: self.background_color,
            color: self.current_color,
        }
    }
}

impl Framebuffer {
    #[verifier::type_invariant]
    spec fn inv(&self) -> bool {
        self.buffer.len() == self.width * self.height
    }

    /// The model of any frame buffer is well formed.
    pub proof fn lemma_view_wf(&self)
        ensures
            self@.wf(),
    {
    }

    /// A buffer of `width * height` cells, all 0, with background 0 and
    /// drawing colour `0xFFFFFFFF`.
    pub fn new(width: usize, height: usize) -> (fb: Self)
        requires
            width * height <= usize::MAX,
        ensures
            fb@ == FramebufferView::blank(width as nat, height as nat),
    {
        let fb = Framebuffer {
            width,
            height,
            buffer: vec![0u32; width * height],
            background_color: 0x0000_0000,
            current_color: 0xFFFF_FFFF,
        };
        assert(fb@.pixels =~= FramebufferView::blank(width as nat, height as nat).pixels);
        fb
    }

    /// Overwrites every cell with the background colour.
    pub fn clear(&mut self)
        ensures
            final(self)@ == old(self)@.cleared(),
    {
        proof {
            use_type_invariant(&*self);
        }
        let n = self.buffer.len();
        let mut i: usize = 0;
        while i < n
            invariant
                i <= n,
                n == self.buffer@.len(),
                n == self.width * self.height,
                self.width == old(self).width,
                self.height == old(self).height,
                self.background_color == old(self).background_color,
                self.current_color == old(self).current_color,
                forall|k: int| 0 <= k < i ==> self.buffer@[k] == self.background_color,
            decreases n - i,
        {
            self.buffer[i] = self.background_color;
            i += 1;
        }
        assert(self@.pixels =~= old(self)@.cleared().pixels);
    }

    /// Draws one point in the drawing colour. A position off the grid is
    /// ignored.
    pub fn point(&mut self, x: isize, y: isize)
        ensures
            final(self)@ == old(self)@.plot(x as int, y as int),
    {
        proof {
            use_type_invariant(&*self);
        }
        if x >= 0 && y >= 0 && (x as usize) < self.width && (y as usize) < self.height {
            proof {
                lemma_cell_index(x as int, y as int, self.width as int, self.height as int);
            }
            let index = (y as usize) * self.width + (x as usize);
            self.buffer[index] = self.current_color;
            proof {
                lemma_plot_on_grid(old(self)@, x as int, y as int);
                assert(self@.pixels =~= old(self)@.pixels.update(index as int, self.current_color));
            }
        } else {
            proof {
                lemma_plot_off_grid(old(self)@, x as int, y as int);
            }
        }
    }

    /// The colour stored at `(x, y)`, or 0 for a position off the grid.
    pub fn get_color(&self, x: usize, y: usize) -> (c: u32)
        ensures
            c == self@.color_at(x as int, y as int),
    {
        proof {
            use_type_invariant(self);
        }
        if x < self.width && y < self.height {
            proof {
                lemma_cell_index(x as int, y as int, self.width as int, self.height as int);
            }
            self.buffer[y * self.width + x]
        } else {
            0
        }
    }

    /// The number of columns.
    pub fn width(&self) -> (w: usize)
        ensures
            w == self@.width,
    {
        self.width
    }

    /// The number of rows.
    pub fn height(&self) -> (h: usize)
        ensures
            h == self@.height,
    {
        self.height
    }

    /// The cells in row-major order.
    pub fn buffer(&self) -> (cells: &Vec<u32>)
        ensures
            cells@ == self@.pixels,
    {
        proof {
            use_type_invariant(self);
            assert(self.buffer@ =~= self@.pixels);
        }
        &self.buffer
    }

    /// The colour that `clear` fills with.
    pub fn background_color(&self) -> (c: u32)
        ensures
            c == self@.background,
    {
        self.background_color
    }

    /// The colour that drawing writes.
    pub fn current_color(&self) -> (c: u32)
        ensures
            c == self@.color,
    {
        self.current_color
    }

    /// Sets the background colour. Cells change only at the next `clear`.
    pub fn set_background_color(&mut self, color: u32)
        ensures
            final(self)@ == old(self)@.with_background(color),
    {
        proof {
            use_type_invariant(&*self);
        }
        self.background_color = color;
    }

    /// Sets the drawing colour. Cells already drawn keep their colour.
    pub fn set_current_color(&mut self, color: u32)
        ensures
            final(self)@ == old(self)@.with_color(color),
    {
        proof {
            use_type_invariant(&*self);
        }
        self.current_color = color;
    }
}

} // verus!
