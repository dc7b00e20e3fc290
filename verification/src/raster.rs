use vstd::prelude::*;

verus! {

/// An RGB color with 8-bit channels. Equality is component-wise.
#[derive(Debug, Clone, Copy, PartialEq, Eq, Structural, Hash)]
pub struct Color {
    pub r: u8,
    pub g: u8,
    pub b: u8,
}

impl Color {
    pub fn new(r: u8, g: u8, b: u8) -> (c: Color)
        ensures
            c.r == r && c.g == g && c.b == b,
    {
        Color { r, g, b }
    }

    pub fn to_slice(&self) -> (s: [u8; 3])
        ensures
            s@ == seq![self.r, self.g, self.b],
    {
        let s = [self.r, self.g, self.b];
        proof {
            assert(s@ =~= seq![self.r, self.g, self.b]);
        }
        s
    }
}

/// A dense rectangular array of colors.
///
/// A position is a pair `(x, y)` with `x` the row index in `[0, height)` and
/// `y` the column index in `[0, width)`; row `x` occupies the linear range
/// `[x * width, (x + 1) * width)` of `pixels`.
#[derive(Debug, Clone, PartialEq, Eq)]
pub struct Texture {
    pub width: usize,
    pub height: usize,
    pub pixels: Vec<Color>,
}

impl Texture {
    /// The pixel array covers the full rectangle.
    pub open spec fn wf(self) -> bool {
        self.pixels@.len() == self.width * self.height
    }

    /// The color stored at row `x`, column `y`.
    pub open spec fn color_at(self, x: int, y: int) -> Color {
        self.pixels@[x * self.width + y]
    }

    /// A `width` by `height` texture, filled with black.
    pub fn new(width: usize, height: usize) -> (t: Texture)
        requires
            width * height <= usize::MAX,
        ensures
            t.wf(),
            t.width == width,
            t.height == height,
            forall|x: int, y: int|
                0 <= x < height && 0 <= y < width ==> t.color_at(x, y) == (Color {
                    r: 0,
                    g: 0,
                    b: 0,
                }),
    {
        let n = width * height;
        let mut pixels: Vec<Color> = Vec::new();
        let mut i: usize = 0;
        while i < n
            invariant
                i <= n,
                pixels@.len() == i,
                forall|j: int| 0 <= j < i ==> pixels@[j] == (Color { r: 0, g: 0, b: 0 }),
            decreases n - i,
        {
            pixels.push(Color::new(0, 0, 0));
            i = i + 1;
        }
        let t = Texture { width, height, pixels };
        proof {
            assert forall|x: int, y: int|
                0 <= x < height && 0 <= y < width implies t.color_at(x, y) == (Color {
                r: 0,
                g: 0,
                b: 0,
            }) by {
                lemma_pos_index_bound(x, y, width as int, height as int);
            }
        }
        t
    }

    /// The color at row `x`, column `y`.
    pub fn pixel(&self, x: usize, y: usize) -> (c: Color)
        requires
            self.wf(),
            x < self.height,
            y < self.width,
        ensures
            c == self.color_at(x as int, y as int),
    {
        let n = self.pixels.len();
        proof {
            lemma_pos_index_bound(x as int, y as int, self.width as int, self.height as int);
            assert(x as int * (self.width as int) + (y as int) < (n as int));
        }
        self.pixels[x * self.width + y]
    }

    /// Replaces the color at row `x`, column `y`.
    pub fn put_pixel(&mut self, x: usize, y: usize, c: Color)
        requires
            old(self).wf(),
            x < old(self).height,
            y < old(self).width,
        ensures
            final(self).wf(),
            final(self).width == old(self).width,
            final(self).height == old(self).height,
            final(self).color_at(x as int, y as int) == c,
            forall|i: int, j: int|
                0 <= i < old(self).height && 0 <= j < old(self).width && !(i == x && j == y)
                    ==> final(self).color_at(i, j) == old(self).color_at(i, j),
    {
        let n = self.pixels.len();
        proof {
            lemma_pos_index_bound(x as int, y as int, self.width as int, self.height as int);
            assert(x as int * (self.width as int) + (y as int) < (n as int));
        }
        let idx = x * self.width + y;
        self.pixels.set(idx, c);
        proof {
            assert forall|i: int, j: int|
                0 <= i < self.height && 0 <= j < self.width && !(i == x as int && j == y as int)
                    implies self.color_at(i, j) == old(self).color_at(i, j) by {
                lemma_pos_index_bound(i, j, self.width as int, self.height as int);
                if i * self.width + j == x as int * self.width + y as int {
                    lemma_pos_index_injective(i, j, x as int, y as int, self.width as int);
                }
            }
        }
    }
}

/// A position inside the rectangle has its linear index inside the array.
pub proof fn lemma_pos_index_bound(x: int, y: int, width: int, height: int)
    requires
        0 <= x < height,
        0 <= y < width,
    ensures
        0 <= x * width + y < width * height,
{
    assert(x * width + y < width * height) by (nonlinear_arith)
        requires
            0 <= x < height,
            0 <= y < width,
    ;
    assert(0 <= x * width + y) by (nonlinear_arith)
        requires
            0 <= x,
            0 <= y,
            0 <= width,
    ;
}

/// Distinct positions inside the rectangle have distinct linear indices.
pub proof fn lemma_pos_index_injective(x1: int, y1: int, x2: int, y2: int, width: int)
    requires
        0 <= y1 < width,
        0 <= y2 < width,
        0 <= x1,
        0 <= x2,
        x1 * width + y1 == x2 * width + y2,
    ensures
        x1 == x2 && y1 == y2,
{
    assert(x1 == x2 && y1 == y2) by (nonlinear_arith)
        requires
            0 <= y1 < width,
            0 <= y2 < width,
            0 <= x1,
            0 <= x2,
            x1 * width + y1 == x2 * width + y2,
    ;
}

} // verus!
