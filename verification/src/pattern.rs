use vstd::prelude::*;

use crate::direction::{opposite_of, Direction};
use crate::raster::{lemma_pos_index_bound, Color, Texture};

verus! {

/// A `size` by `size` tile of colors, identified by a dense id.
///
/// Local cell `(dx, dy)` lives at index `dx * size + dy` of `pixels`, with
/// `dx` the row offset and `dy` the column offset. Two patterns are the same
/// exactly when their `pixels` agree; ids play no part in equality.
#[derive(Debug, Clone)]
pub struct Pattern {
    /// Dense non-negative identifier, assigned in creation order.
    pub id: usize,
    /// The side length of the tile.
    pub size: usize,
    /// The tile's colors, row-major over local coordinates.
    pub pixels: Vec<Color>,
}

/// The color that the tile anchored at `(x0, y0)` holds at flat offset `i`,
/// sampling the exemplar with toroidal wrap.
pub open spec fn sample_at(tex: Texture, k: int, x0: int, y0: int, i: int) -> Color {
    tex.color_at((x0 + i / k) % (tex.height as int), (y0 + i % k) % (tex.width as int))
}

/// The full contents of the `k` by `k` tile anchored at `(x0, y0)` of the
/// exemplar, under toroidal wrap.
pub open spec fn sample(tex: Texture, k: int, x0: int, y0: int) -> Seq<Color> {
    Seq::new((k * k) as nat, |i: int| sample_at(tex, k, x0, y0, i))
}

/// The pixel index that position `i` of the side facing `d` occupies, for a
/// tile of side length `k`.
///
/// The side facing `Up` consists of all rows but the last, the side facing
/// `Down` of all rows but the first, and the sides facing `Left` and `Right`
/// drop the last and the first column respectively; each is read row-major.
pub open spec fn side_index(k: int, d: Direction, i: int) -> int {
    match d {
        Direction::Up => i,
        Direction::Down => i + k,
        Direction::Right => (i / (k - 1)) * k + i % (k - 1) + 1,
        Direction::Left => (i / (k - 1)) * k + i % (k - 1),
    }
}

/// The `k * (k - 1)` colors of the overlap strip of `p` facing `d`.
pub open spec fn side_of(p: Pattern, d: Direction) -> Seq<Color> {
    Seq::new(
        (p.size * (p.size - 1)) as nat,
        |i: int| p.pixels@[side_index(p.size as int, d, i)],
    )
}

/// Whether `b` may sit immediately in direction `d` from `a`: the strip of
/// `a` facing `d` equals the strip of `b` facing the opposite way.
pub open spec fn overlaps_spec(a: Pattern, b: Pattern, d: Direction) -> bool {
    side_of(a, d) == side_of(b, opposite_of(d))
}

/// Whether some pattern of `s` has exactly the contents `px`.
pub open spec fn contains_pixels(s: Seq<Pattern>, px: Seq<Color>) -> bool {
    exists|i: int| 0 <= i < s.len() && s[i].pixels@ == px
}

impl Pattern {
    /// The tile is square and non-degenerate.
    pub open spec fn wf(self) -> bool {
        &&& self.size >= 1
        &&& self.pixels@.len() == self.size * self.size
    }

    /// Builds the pattern anchored at `pos` in `texture`, sampling a square
    /// of side `size` under toroidal wrap; `pos` is the square's top-left
    /// corner.
    pub fn new(id: usize, size: usize, texture: &Texture, pos: (usize, usize)) -> (p: Pattern)
        requires
            texture.wf(),
            texture.width >= 1,
            texture.height >= 1,
            size >= 1,
            size * size <= usize::MAX,
            pos.0 + size <= usize::MAX,
            pos.1 + size <= usize::MAX,
        ensures
            p.id == id,
            p.size == size,
            p.wf(),
            p.pixels@ == sample(*texture, size as int, pos.0 as int, pos.1 as int),
    {
        let ghost k = size as int;
        let mut pixels: Vec<Color> = Vec::new();
        let mut dx: usize = 0;
        while dx < size
            invariant
                texture.wf(),
                texture.width >= 1,
                texture.height >= 1,
                size >= 1,
                size * size <= usize::MAX,
                pos.0 + size <= usize::MAX,
                pos.1 + size <= usize::MAX,
                dx <= size,
                pixels@.len() == dx * size,
                forall|i: int|
                    0 <= i < dx * size ==> pixels@[i] == sample_at(
                        *texture,
                        size as int,
                        pos.0 as int,
                        pos.1 as int,
                        i,
                    ),
            decreases size - dx,
        {
            let mut dy: usize = 0;
            proof {
                assert((dx + 1) * size <= size * size) by (nonlinear_arith)
                    requires
                        dx < size,
                ;
            }
            while dy < size
                invariant
                    texture.wf(),
                    texture.width >= 1,
                    texture.height >= 1,
                    size >= 1,
                    pos.0 + size <= usize::MAX,
                    pos.1 + size <= usize::MAX,
                    dx < size,
                    dy <= size,
                    (dx + 1) * size <= size * size,
                    size * size <= usize::MAX,
                    pixels@.len() == dx * size + dy,
                    forall|i: int|
                        0 <= i < dx * size + dy ==> pixels@[i] == sample_at(
                            *texture,
                            size as int,
                            pos.0 as int,
                            pos.1 as int,
                            i,
                        ),
                decreases size - dy,
            {
                proof {
                    assert(dx * size + dy < (dx + 1) * size) by (nonlinear_arith)
                        requires
                            dy < size,
                    ;
                }
                let x = (pos.0 + dx) % texture.height;
                let y = (pos.1 + dy) % texture.width;
                let c = texture.pixel(x, y);
                pixels.push(c);
                proof {
                    let i = dx as int * size as int + dy as int;
                    vstd::arithmetic::div_mod::lemma_fundamental_div_mod_converse(
                        i,
                        size as int,
                        dx as int,
                        dy as int,
                    );
                    assert(pixels@[i] == sample_at(
                        *texture,
                        size as int,
                        pos.0 as int,
                        pos.1 as int,
                        i,
                    ));
                }
                dy = dy + 1;
            }
            proof {
                assert(dx * size + size == (dx + 1) * size) by (nonlinear_arith);
            }
            dx = dx + 1;
        }
        let p = Pattern { id, size, pixels };
        proof {
            assert(p.pixels@ =~= sample(*texture, size as int, pos.0 as int, pos.1 as int));
        }
        p
    }

    /// The color at local position `(x, y)` of the tile.
    pub fn at(&self, x: usize, y: usize) -> (c: Color)
        requires
            self.wf(),
            x < self.size,
            y < self.size,
        ensures
            c == self.pixels@[x as int * self.size as int + y as int],
    {
        let n = self.pixels.len();
        proof {
            lemma_pos_index_bound(x as int, y as int, self.size as int, self.size as int);
            assert(x as int * (self.size as int) + (y as int) < (n as int));
        }
        self.pixels[x * self.size + y]
    }

    /// Returns the overlap strip of this pattern facing `direction`: the
    /// pixels that a neighbouring pattern placed in that direction would
    /// share with this one.
    pub fn get_side(&self, direction: &Direction) -> (r: Vec<Color>)
        requires
            self.wf(),
        ensures
            r@ == side_of(*self, *direction),
    {
        let size = self.size;
        let ghost k = size as int;
        let mut pixels: Vec<Color> = Vec::new();
        match direction {
            Direction::Up => {
                let mut x: usize = 0;
                while x < size - 1
                    invariant
                        self.wf(),
                        size == self.size,
                        k == size,
                        x <= size - 1,
                        pixels@.len() == x * size,
                        x * size <= (size - 1) * size,
                        forall|i: int|
                            0 <= i < x * size ==> pixels@[i] == self.pixels@[side_index(
                                k,
                                Direction::Up,
                                i,
                            )],
                    decreases size - 1 - x,
                {
                    proof {
                        assert((x + 1) * size <= (size - 1) * size && (size - 1) * size <= size
                            * size) by (nonlinear_arith)
                            requires
                                x < size - 1,
                                size >= 1,
                        ;
                    }
                    let mut y: usize = 0;
                    while y < size
                        invariant
                            self.wf(),
                            size == self.size,
                            k == size,
                            x < size - 1,
                            y <= size,
                            (x + 1) * size <= (size - 1) * size,
                            (size - 1) * size <= size * size,
                            pixels@.len() == x * size + y,
                            forall|i: int|
                                0 <= i < x * size + y ==> pixels@[i] == self.pixels@[side_index(
                                    k,
                                    Direction::Up,
                                    i,
                                )],
                        decreases size - y,
                    {
                        proof {
                            assert(x * size + y < (x + 1) * size) by (nonlinear_arith)
                                requires
                                    y < size,
                            ;
                        }
                        let c = self.at(x, y);
                        pixels.push(c);
                        proof { dy_up_step_proof(*self, x as int, y as int); }
                        y = y + 1;
                    }
                    proof {
                        assert(x * size + size == (x + 1) * size) by (nonlinear_arith);
                    }
                    x = x + 1;
                }
            },
            Direction::Down => {
                let mut x: usize = 1;
                while x < size
                    invariant
                        self.wf(),
                        size == self.size,
                        k == size,
                        1 <= x <= size,
                        pixels@.len() == (x - 1) * size,
                        (x - 1) * size <= (size - 1) * size,
                        forall|i: int|
                            0 <= i < (x - 1) * size ==> pixels@[i] == self.pixels@[side_index(
                                k,
                                Direction::Down,
                                i,
                            )],
                    decreases size - x,
                {
                    proof {
                        assert(x * size <= (size - 1) * size && (size - 1) * size <= size * size)
                            by (nonlinear_arith)
                            requires
                                x < size,
                                size >= 1,
                        ;
                    }
                    let mut y: usize = 0;
                    while y < size
                        invariant
                            self.wf(),
                            size == self.size,
                            k == size,
                            1 <= x < size,
                            y <= size,
                            x * size <= (size - 1) * size,
                            (size - 1) * size <= size * size,
                            pixels@.len() == (x - 1) * size + y,
                            forall|i: int|
                                0 <= i < (x - 1) * size + y ==> pixels@[i]
                                    == self.pixels@[side_index(k, Direction::Down, i)],
                        decreases size - y,
                    {
                        proof {
                            assert((x - 1) * size + y < x * size && (x - 1) * size + y + k == x
                                * size + y) by (nonlinear_arith)
                                requires
                                    y < size,
                                    k == size,
                                    x >= 1,
                            ;
                        }
                        let c = self.at(x, y);
                        pixels.push(c);
                        proof { dy_down_step_proof(*self, x as int, y as int); }
                        y = y + 1;
                    }
                    proof {
                        assert((x - 1) * size + size == x * size) by (nonlinear_arith);
                    }
                    x = x + 1;
                }
            },
            Direction::Right => {
                let mut x: usize = 0;
                while x < size
                    invariant
                        self.wf(),
                        size == self.size,
                        k == size,
                        x <= size,
                        pixels@.len() == x * (size - 1),
                        x * (size - 1) <= size * (size - 1),
                        forall|i: int|
                            0 <= i < x * (size - 1) ==> pixels@[i] == self.pixels@[side_index(
                                k,
                                Direction::Right,
                                i,
                            )],
                    decreases size - x,
                {
                    proof {
                        assert((x + 1) * (size - 1) <= size * (size - 1) && size * (size - 1)
                            <= size * size) by (nonlinear_arith)
                            requires
                                x < size,
                                size >= 1,
                        ;
                    }
                    let mut y: usize = 1;
                    while y < size
                        invariant
                            self.wf(),
                            size == self.size,
                            k == size,
                            x < size,
                            1 <= y <= size,
                            (x + 1) * (size - 1) <= size * (size - 1),
                            size * (size - 1) <= size * size,
                            pixels@.len() == x * (size - 1) + y - 1,
                            forall|i: int|
                                0 <= i < x * (size - 1) + y - 1 ==> pixels@[i]
                                    == self.pixels@[side_index(k, Direction::Right, i)],
                        decreases size - y,
                    {
                        proof {
                            assert(x * (size - 1) + y - 1 < (x + 1) * (size - 1))
                                by (nonlinear_arith)
                                requires
                                    1 <= y < size,
                            ;
                        }
                        let c = self.at(x, y);
                        pixels.push(c);
                        proof { dy_col_step_proof(*self, x as int, y as int, Direction::Right); }
                        y = y + 1;
                    }
                    proof {
                        assert(x * (size - 1) + size - 1 == (x + 1) * (size - 1))
                            by (nonlinear_arith);
                    }
                    x = x + 1;
                }
            },
            Direction::Left => {
                let mut x: usize = 0;
                while x < size
                    invariant
                        self.wf(),
                        size == self.size,
                        k == size,
                        x <= size,
                        pixels@.len() == x * (size - 1),
                        x * (size - 1) <= size * (size - 1),
                        forall|i: int|
                            0 <= i < x * (size - 1) ==> pixels@[i] == self.pixels@[side_index(
                                k,
                                Direction::Left,
                                i,
                            )],
                    decreases size - x,
                {
                    proof {
                        assert((x + 1) * (size - 1) <= size * (size - 1) && size * (size - 1)
                            <= size * size) by (nonlinear_arith)
                            requires
                                x < size,
                                size >= 1,
                        ;
                    }
                    let mut y: usize = 0;
                    while y < size - 1
                        invariant
                            self.wf(),
                            size == self.size,
                            k == size,
                            x < size,
                            y <= size - 1,
                            (x + 1) * (size - 1) <= size * (size - 1),
                            size * (size - 1) <= size * size,
                            pixels@.len() == x * (size - 1) + y,
                            forall|i: int|
                                0 <= i < x * (size - 1) + y ==> pixels@[i]
                                    == self.pixels@[side_index(k, Direction::Left, i)],
                        decreases size - 1 - y,
                    {
                        proof {
                            assert(x * (size - 1) + y < (x + 1) * (size - 1)) by (nonlinear_arith)
                                requires
                                    y < size - 1,
                            ;
                        }
                        let c = self.at(x, y);
                        pixels.push(c);
                        proof { dy_col_step_proof(*self, x as int, y as int, Direction::Left); }
                        y = y + 1;
                    }
                    proof {
                        assert(x * (size - 1) + size - 1 == (x + 1) * (size - 1))
                            by (nonlinear_arith);
                    }
                    x = x + 1;
                }
            },
        }
        proof {
            assert(pixels@ =~= side_of(*self, *direction));
        }
        pixels
    }

    /// Whether `p2` can be placed immediately in direction `direction` from
    /// this pattern: the two overlap strips agree.
    pub fn overlaps(&self, p2: &Pattern, direction: &Direction) -> (r: bool)
        requires
            self.wf(),
            p2.wf(),
        ensures
            r == overlaps_spec(*self, *p2, *direction),
    {
        let side1 = self.get_side(direction);
        let side2 = p2.get_side(&direction.opposite());

        colors_eq(&side1, &side2)
    }
}

/// Step proof for the `Up` side loop: the pixel just pushed is the side's
/// element at its own position.
proof fn dy_up_step_proof(p: Pattern, x: int, y: int)
    requires
        p.wf(),
        0 <= x < p.size - 1,
        0 <= y < p.size,
    ensures
        side_index(p.size as int, Direction::Up, x * p.size + y) == x * p.size + y,
{
}

/// Step proof for the `Down` side loop.
proof fn dy_down_step_proof(p: Pattern, x: int, y: int)
    requires
        p.wf(),
        1 <= x < p.size,
        0 <= y < p.size,
    ensures
        side_index(p.size as int, Direction::Down, (x - 1) * p.size + y) == x * p.size + y,
{
    let k = p.size as int;
    assert((x - 1) * k + y + k == x * k + y) by (nonlinear_arith);
}

/// Step proof for the `Right` and `Left` side loops: position
/// `x * (k - 1) + (y - first)` of the side maps back to pixel `(x, y)`.
proof fn dy_col_step_proof(p: Pattern, x: int, y: int, d: Direction)
    requires
        p.wf(),
        0 <= x < p.size,
        d == Direction::Right || d == Direction::Left,
        d == Direction::Right ==> 1 <= y < p.size,
        d == Direction::Left ==> 0 <= y < p.size - 1,
    ensures
        d == Direction::Right ==> side_index(p.size as int, d, x * (p.size - 1) + y - 1) == x
            * p.size + y,
        d == Direction::Left ==> side_index(p.size as int, d, x * (p.size - 1) + y) == x * p.size
            + y,
{
    let k = p.size as int;
    if d == Direction::Right {
        vstd::arithmetic::div_mod::lemma_fundamental_div_mod_converse(
            x * (k - 1) + (y - 1),
            k - 1,
            x,
            y - 1,
        );
        assert((x * (k - 1) + y - 1) / (k - 1) * k + (x * (k - 1) + y - 1) % (k - 1) + 1 == x * k
            + y) by (nonlinear_arith)
            requires
                (x * (k - 1) + y - 1) / (k - 1) == x,
                (x * (k - 1) + y - 1) % (k - 1) == y - 1,
        ;
    } else {
        vstd::arithmetic::div_mod::lemma_fundamental_div_mod_converse(x * (k - 1) + y, k - 1, x, y);
        assert((x * (k - 1) + y) / (k - 1) * k + (x * (k - 1) + y) % (k - 1) == x * k + y)
            by (nonlinear_arith)
            requires
                (x * (k - 1) + y) / (k - 1) == x,
                (x * (k - 1) + y) % (k - 1) == y,
        ;
    }
}

/// Compares two color vectors element by element.
pub fn colors_eq(a: &Vec<Color>, b: &Vec<Color>) -> (r: bool)
    ensures
        r == (a@ == b@),
{
    if a.len() != b.len() {
        proof {
            assert(a@ != b@);
        }
        return false;
    }
    let n = a.len();
    let mut i: usize = 0;
    while i < n
        invariant
            n == a@.len() == b@.len(),
            i <= n,
            forall|j: int| 0 <= j < i ==> a@[j] == b@[j],
        decreases n - i,
    {
        if a[i].r != b[i].r || a[i].g != b[i].g || a[i].b != b[i].b {
            proof {
                assert(a@[i as int] != b@[i as int]);
            }
            return false;
        }
        i = i + 1;
    }
    proof {
        assert(a@ =~= b@);
    }
    true
}

/// Whether some pattern already collected has exactly the contents of `p`.
pub fn contains_pattern(v: &Vec<Pattern>, p: &Pattern) -> (r: bool)
    ensures
        r == contains_pixels(v@, p.pixels@),
{
    let n = v.len();
    let mut i: usize = 0;
    while i < n
        invariant
            n == v@.len(),
            i <= n,
            forall|j: int| 0 <= j < i ==> v@[j].pixels@ != p.pixels@,
        decreases n - i,
    {
        if colors_eq(&v[i].pixels, &p.pixels) {
            return true;
        }
        i = i + 1;
    }
    false
}

/// Whether `p` carries the contents of some tile of the exemplar.
pub open spec fn from_anchor(p: Pattern, tex: Texture, k: int) -> bool {
    exists|x: int, y: int|
        0 <= x < tex.height && 0 <= y < tex.width && p.pixels@ == sample(tex, k, x, y)
}

/// The shape of a well-formed extraction result: ids are dense in creation
/// order, every pattern is a `k` by `k` tile read off some anchor of the
/// exemplar, and no two patterns share their contents.
pub open spec fn extraction_wf(out: Seq<Pattern>, tex: Texture, k: int) -> bool {
    &&& forall|i: int| 0 <= i < out.len() ==> (#[trigger] out[i]).id == i
    &&& forall|i: int| 0 <= i < out.len() ==> (#[trigger] out[i]).size == k
    &&& forall|i: int| 0 <= i < out.len() ==> (#[trigger] out[i]).wf()
    &&& forall|i: int| 0 <= i < out.len() ==> from_anchor(#[trigger] out[i], tex, k)
    &&& forall|i: int, j: int| 0 <= i < j < out.len() ==> out[i].pixels@ != out[j].pixels@
}

/// Appending a fresh pattern read off an anchor keeps an extraction result
/// well formed, and keeps everything it already contained.
proof fn lemma_extraction_push(out: Seq<Pattern>, p: Pattern, tex: Texture, k: int, x: int, y: int)
    requires
        extraction_wf(out, tex, k),
        !contains_pixels(out, p.pixels@),
        p.id == out.len(),
        p.size == k,
        p.wf(),
        0 <= x < tex.height,
        0 <= y < tex.width,
        p.pixels@ == sample(tex, k, x, y),
    ensures
        extraction_wf(out.push(p), tex, k),
        forall|px: Seq<Color>|
            #[trigger] contains_pixels(out, px) ==> contains_pixels(out.push(p), px),
        contains_pixels(out.push(p), p.pixels@),
{
    let s = out.push(p);
    let l = out.len() as int;
    assert(s[l] == p);
    assert(forall|i: int| 0 <= i < l ==> s[i] == out[i]);
    assert(from_anchor(p, tex, k));
    assert forall|i: int, j: int| 0 <= i < j < s.len() implies s[i].pixels@ != s[j].pixels@ by {
        if j < l {
            assert(out[i].pixels@ != out[j].pixels@);
        } else {
            assert(!(0 <= i < out.len() && out[i].pixels@ == p.pixels@));
        }
    }
    assert forall|px: Seq<Color>| #[trigger]
        contains_pixels(out, px) implies contains_pixels(s, px) by {
        let i = choose|i: int| 0 <= i < out.len() && out[i].pixels@ == px;
        assert(s[i].pixels@ == px);
    }
}

/// The tile contents at step `t` of the extraction scan, which visits the
/// anchors row by row: the row index runs over the exemplar's height and
/// the column index over its width.
pub open spec fn scan_anchor(tex: Texture, k: int, t: int) -> Seq<Color> {
    sample(tex, k, t / (tex.width as int), t % (tex.width as int))
}

/// The distinct tile contents among the first `t` anchors of the extraction
/// scan, in order of first appearance.
pub open spec fn distinct_upto(tex: Texture, k: int, t: int) -> Seq<Seq<Color>>
    decreases t,
{
    if t <= 0 {
        Seq::empty()
    } else {
        let rest = distinct_upto(tex, k, t - 1);
        if rest.contains(scan_anchor(tex, k, t - 1)) {
            rest
        } else {
            rest.push(scan_anchor(tex, k, t - 1))
        }
    }
}

/// Extracts the set of distinct patterns appearing in `texture` under
/// toroidal wrap: one pattern is anchored at every position of the exemplar,
/// duplicates by pixel content are merged, and ids index the result densely
/// in first-appearance order: entry `i` holds the `i`-th distinct tile
/// contents that the scan meets.
pub fn get_patterns(texture: &Texture, size: usize) -> (r: Vec<Pattern>)
    requires
        texture.wf(),
        texture.width >= 1,
        texture.height >= 1,
        size >= 1,
        size * size <= usize::MAX,
        texture.height + size <= usize::MAX,
        texture.width + size <= usize::MAX,
        texture.width * texture.height <= usize::MAX,
    ensures
        1 <= r@.len() <= texture.width * texture.height,
        extraction_wf(r@, *texture, size as int),
        forall|x: int, y: int|
            0 <= x < texture.height && 0 <= y < texture.width ==> contains_pixels(
                r@,
                #[trigger] sample(*texture, size as int, x, y),
            ),
        r@.len() == distinct_upto(
            *texture,
            size as int,
            texture.height as int * texture.width as int,
        ).len(),
        forall|i: int|
            0 <= i < r@.len() ==> (#[trigger] r@[i]).pixels@ == distinct_upto(
                *texture,
                size as int,
                texture.height as int * texture.width as int,
            )[i],
{
    let h = texture.height;
    let w = texture.width;
    let mut out: Vec<Pattern> = Vec::new();
    let mut x: usize = 0;
    while x < h
        invariant
            texture.wf(),
            h == texture.height,
            w == texture.width,
            texture.width >= 1,
            texture.height >= 1,
            size >= 1,
            size * size <= usize::MAX,
            texture.height + size <= usize::MAX,
            texture.width + size <= usize::MAX,
            texture.width * texture.height <= usize::MAX,
            x <= h,
            out@.len() <= x * w,
            x * w <= h * w,
            extraction_wf(out@, *texture, size as int),
            forall|a: int, b: int|
                0 <= a < x && 0 <= b < w ==> contains_pixels(
                    out@,
                    #[trigger] sample(*texture, size as int, a, b),
                ),
            x >= 1 ==> out@.len() >= 1,
            out@.len() == distinct_upto(*texture, size as int, x as int * w as int).len(),
            forall|i: int|
                0 <= i < out@.len() ==> (#[trigger] out@[i]).pixels@ == distinct_upto(
                    *texture,
                    size as int,
                    x as int * w as int,
                )[i],
        decreases h - x,
    {
        proof {
            assert((x + 1) * w <= h * w && x * w + w == (x + 1) * w) by (nonlinear_arith)
                requires
                    x < h,
            ;
        }
        let mut y: usize = 0;
        while y < w
            invariant
                texture.wf(),
                h == texture.height,
                w == texture.width,
                texture.width >= 1,
                texture.height >= 1,
                size >= 1,
                size * size <= usize::MAX,
                texture.height + size <= usize::MAX,
                texture.width + size <= usize::MAX,
                x < h,
                y <= w,
                out@.len() <= x * w + y,
                x * w + w == (x + 1) * w,
                (x + 1) * w <= h * w,
                extraction_wf(out@, *texture, size as int),
                forall|a: int, b: int|
                    0 <= a < x && 0 <= b < w ==> contains_pixels(
                        out@,
                        #[trigger] sample(*texture, size as int, a, b),
                    ),
                forall|b: int|
                    0 <= b < y ==> contains_pixels(
                        out@,
                        #[trigger] sample(*texture, size as int, x as int, b),
                    ),
                x >= 1 || y >= 1 ==> out@.len() >= 1,
                out@.len() == distinct_upto(
                    *texture,
                    size as int,
                    x as int * w as int + y as int,
                ).len(),
                forall|i: int|
                    0 <= i < out@.len() ==> (#[trigger] out@[i]).pixels@ == distinct_upto(
                        *texture,
                        size as int,
                        x as int * w as int + y as int,
                    )[i],
            decreases w - y,
        {
            let id = out.len();
            let cand = Pattern::new(id, size, texture, (x, y));
            let ghost prev = out@;
            let ghost t = x as int * w as int + y as int;
            let ghost s = sample(*texture, size as int, x as int, y as int);
            proof {
                vstd::arithmetic::div_mod::lemma_fundamental_div_mod_converse(
                    t,
                    w as int,
                    x as int,
                    y as int,
                );
                assert(scan_anchor(*texture, size as int, t) == s);
            }
            let ghost rest = distinct_upto(*texture, size as int, t);
            if !contains_pattern(&out, &cand) {
                out.push(cand);
                proof {
                    lemma_extraction_push(
                        prev,
                        cand,
                        *texture,
                        size as int,
                        x as int,
                        y as int,
                    );
                    assert(!rest.contains(s)) by {
                        if rest.contains(s) {
                            let i = choose|i: int| 0 <= i < rest.len() && rest[i] == s;
                            assert(prev[i].pixels@ == s);
                            assert(contains_pixels(prev, s));
                        }
                    }
                    assert(distinct_upto(*texture, size as int, t + 1) == rest.push(s));
                    assert forall|i: int| 0 <= i < out@.len() implies (#[trigger] out@[i]).pixels@
                        == distinct_upto(*texture, size as int, t + 1)[i] by {
                        if i < prev.len() {
                            assert(out@[i] == prev[i]);
                            assert(rest.push(s)[i] == rest[i]);
                        } else {
                            assert(out@[i] == cand);
                            assert(rest.push(s)[i] == s);
                        }
                    }
                }
            } else {
                proof {
                    let i = choose|i: int| 0 <= i < prev.len() && prev[i].pixels@ == s;
                    assert(rest[i] == s);
                    assert(rest.contains(s));
                    assert(distinct_upto(*texture, size as int, t + 1) == rest);
                }
            }
            y = y + 1;
        }
        proof {
            assert forall|a: int, b: int| 0 <= a < x + 1 && 0 <= b < w implies contains_pixels(
                out@,
                sample(*texture, size as int, a, b),
            ) by {
                if a < x {
                    assert(contains_pixels(out@, sample(*texture, size as int, a, b)));
                } else {
                    assert(contains_pixels(out@, sample(*texture, size as int, x as int, b)));
                }
            }
        }
        x = x + 1;
    }
    proof {
        assert(contains_pixels(out@, sample(*texture, size as int, 0, 0)));
        assert(out@.len() >= 1);
        assert(out@.len() <= h * w);
        assert(h as int * w as int == w as int * h as int) by (nonlinear_arith);
    }
    out
}

/// The set of distinct tile contents that appear anywhere in the exemplar.
pub open spec fn anchor_contents(tex: Texture, k: int) -> Set<Seq<Color>> {
    Set::new(
        |s: Seq<Color>|
            exists|x: int, y: int|
                0 <= x < tex.height && 0 <= y < tex.width && s == sample(tex, k, x, y),
    )
}

/// The extractor returns exactly one pattern per distinct tile contents: a
/// sequence of patterns that all come from anchors, cover every anchor, and
/// are pairwise distinct has exactly as many entries as there are distinct
/// tile contents in the exemplar.
pub proof fn lemma_extractor_counts_distinct_contents(r: Seq<Pattern>, tex: Texture, k: int)
    requires
        extraction_wf(r, tex, k),
        forall|x: int, y: int|
            0 <= x < tex.height && 0 <= y < tex.width ==> contains_pixels(
                r,
                #[trigger] sample(tex, k, x, y),
            ),
    ensures
        r.len() == anchor_contents(tex, k).len(),
{
    let m = Seq::new(r.len(), |i: int| r[i].pixels@);
    assert(m.no_duplicates()) by {
        assert forall|i: int, j: int| 0 <= i < m.len() && 0 <= j < m.len() && i != j implies m[i]
            != m[j] by {
            if i < j {
                assert(r[i].pixels@ != r[j].pixels@);
            } else {
                assert(r[j].pixels@ != r[i].pixels@);
            }
        }
    }
    assert(m.to_set() =~= anchor_contents(tex, k)) by {
        assert forall|s: Seq<Color>| m.to_set().contains(s) implies anchor_contents(
            tex,
            k,
        ).contains(s) by {
            let i = choose|i: int| 0 <= i < m.len() && m[i] == s;
            assert(r[i].pixels@ == s);
        }
        assert forall|s: Seq<Color>| anchor_contents(tex, k).contains(s) implies m.to_set()
            .contains(s) by {
            let (x, y) = choose|x: int, y: int|
                0 <= x < tex.height && 0 <= y < tex.width && s == sample(tex, k, x, y);
            assert(contains_pixels(r, sample(tex, k, x, y)));
            let i = choose|i: int| 0 <= i < r.len() && r[i].pixels@ == sample(tex, k, x, y);
            assert(m[i] == s);
        }
    }
    m.unique_seq_to_set();
}

/// Overlap is symmetric under swapping the patterns and reversing the
/// direction: `b` fits in direction `d` from `a` exactly when `a` fits in
/// the opposite direction from `b`.
pub proof fn lemma_overlap_symmetry(a: Pattern, b: Pattern, d: Direction)
    ensures
        overlaps_spec(a, b, d) == overlaps_spec(b, a, opposite_of(d)),
{
    crate::direction::lemma_opposite_involution(d);
}

/// Degenerate kernels always overlap: for side length 1 the overlap strips
/// are empty, so every pattern may sit next to every pattern — itself
/// included — in every direction.
pub proof fn lemma_unit_patterns_always_overlap(a: Pattern, b: Pattern, d: Direction)
    requires
        a.size == 1,
        b.size == 1,
    ensures
        overlaps_spec(a, b, d),
{
    assert(side_of(a, d) =~= side_of(b, opposite_of(d)));
}

impl PartialEq for Pattern {
    /// Patterns are equal exactly when their pixel contents are equal; ids
    /// and sizes play no part.
    fn eq(&self, other: &Pattern) -> (r: bool) {
        colors_eq(&self.pixels, &other.pixels)
    }
}

impl Eq for Pattern {

}

impl vstd::std_specs::cmp::PartialEqSpecImpl for Pattern {
    open spec fn obeys_eq_spec() -> bool {
        true
    }

    open spec fn eq_spec(&self, other: &Pattern) -> bool {
        self.pixels@ == other.pixels@
    }
}

/// Adding to a reduced residue is the same as adding before reducing.
pub proof fn lemma_mod_shift(a: int, t: int, m: int)
    requires
        m >= 1,
    ensures
        ((a % m) + t) % m == (a + t) % m,
{
    vstd::arithmetic::div_mod::lemma_add_mod_noop(a, t, m);
    vstd::arithmetic::div_mod::lemma_add_mod_noop(a % m, t, m);
    vstd::arithmetic::div_mod::lemma_mod_twice(a, m);
}

/// The flat offsets of a tile split into a row and a column offset.
proof fn lemma_offset_split(i: int, stride: int, count: int)
    requires
        stride >= 1,
        0 <= i < stride * count,
    ensures
        0 <= i / stride < count,
        0 <= i % stride < stride,
        i == (i / stride) * stride + i % stride,
{
    vstd::arithmetic::div_mod::lemma_mod_multiples_basic(count, stride);
    assert(stride * count == count * stride) by (nonlinear_arith);
    crate::table::lemma_table_pos_bounds(i, stride, stride * count);
    vstd::arithmetic::div_mod::lemma_fundamental_div_mod_converse(
        stride * count,
        stride,
        count,
        0,
    );
}

/// The anchor of the tile that sits one step against direction `d` from the
/// tile anchored at `(x, y)`, under toroidal wrap: the tile that supports
/// placing the `(x, y)` tile in direction `d` from it.
pub open spec fn support_anchor(tex: Texture, x: int, y: int, d: Direction) -> (int, int) {
    match d {
        Direction::Up => ((x + 1) % (tex.height as int), y),
        Direction::Down => ((x + tex.height - 1) % (tex.height as int), y),
        Direction::Right => (x, (y + tex.width - 1) % (tex.width as int)),
        Direction::Left => (x, (y + 1) % (tex.width as int)),
    }
}

/// Two tiles read off the exemplar one step apart overlap: the tile at the
/// support anchor of `(x, y)` for direction `d` may have the tile at
/// `(x, y)` placed next to it in direction `d`.
pub proof fn lemma_sample_overlap(
    tex: Texture,
    k: int,
    a: Pattern,
    b: Pattern,
    x: int,
    y: int,
    d: Direction,
)
    requires
        tex.wf(),
        tex.width >= 1,
        tex.height >= 1,
        k >= 1,
        0 <= x < tex.height,
        0 <= y < tex.width,
        a.size == k,
        b.size == k,
        a.pixels@ == sample(tex, k, support_anchor(tex, x, y, d).0, support_anchor(tex, x, y, d).1),
        b.pixels@ == sample(tex, k, x, y),
    ensures
        overlaps_spec(a, b, d),
{
    let h = tex.height as int;
    let w = tex.width as int;
    let sa = side_of(a, d);
    let sb = side_of(b, opposite_of(d));
    if k == 1 {
        assert(sa =~= sb);
    } else {
        assert(sa.len() == sb.len());
        assert forall|i: int| 0 <= i < sa.len() implies sa[i] == sb[i] by {
            match d {
                Direction::Up => {
                    lemma_offset_split(i, k, k - 1);
                    let r = i / k;
                    let c = i % k;
                    crate::raster::lemma_pos_index_bound(r, c, k, k);
                    crate::raster::lemma_pos_index_bound(r + 1, c, k, k);
                    assert((r + 1) * k == r * k + k) by (nonlinear_arith);
                    assert(i + k == (r + 1) * k + c);
                    vstd::arithmetic::div_mod::lemma_fundamental_div_mod_converse(i + k, k, r + 1, c);
                    assert(sa[i] == tex.color_at(((x + 1) % h + r) % h, (y + c) % w));
                    assert(sb[i] == tex.color_at((x + r + 1) % h, (y + c) % w));
                    lemma_mod_shift(x + 1, r, h);
                },
                Direction::Down => {
                    lemma_offset_split(i, k, k - 1);
                    let r = i / k;
                    let c = i % k;
                    crate::raster::lemma_pos_index_bound(r, c, k, k);
                    crate::raster::lemma_pos_index_bound(r + 1, c, k, k);
                    assert((r + 1) * k == r * k + k) by (nonlinear_arith);
                    assert(i + k == (r + 1) * k + c);
                    vstd::arithmetic::div_mod::lemma_fundamental_div_mod_converse(i + k, k, r + 1, c);
                    assert(sa[i] == tex.color_at(((x + h - 1) % h + (r + 1)) % h, (y + c) % w));
                    assert(sb[i] == tex.color_at((x + r) % h, (y + c) % w));
                    lemma_mod_shift(x + h - 1, r + 1, h);
                    assert((x + h - 1 + (r + 1)) % h == (x + r + h) % h);
                    vstd::arithmetic::div_mod::lemma_mod_add_multiples_vanish(x + r, h);
                },
                Direction::Right => {
                    lemma_offset_split(i, k - 1, k);
                    let r = i / (k - 1);
                    let c = i % (k - 1);
                    crate::raster::lemma_pos_index_bound(r, c, k, k);
                    crate::raster::lemma_pos_index_bound(r, c + 1, k, k);
                    vstd::arithmetic::div_mod::lemma_fundamental_div_mod_converse(
                        r * k + c + 1,
                        k,
                        r,
                        c + 1,
                    );
                    vstd::arithmetic::div_mod::lemma_fundamental_div_mod_converse(r * k + c, k, r, c);
                    assert(sa[i] == tex.color_at((x + r) % h, ((y + w - 1) % w + (c + 1)) % w));
                    assert(sb[i] == tex.color_at((x + r) % h, (y + c) % w));
                    lemma_mod_shift(y + w - 1, c + 1, w);
                    assert((y + w - 1 + (c + 1)) % w == (y + c + w) % w);
                    vstd::arithmetic::div_mod::lemma_mod_add_multiples_vanish(y + c, w);
                },
                Direction::Left => {
                    lemma_offset_split(i, k - 1, k);
                    let r = i / (k - 1);
                    let c = i % (k - 1);
                    crate::raster::lemma_pos_index_bound(r, c, k, k);
                    crate::raster::lemma_pos_index_bound(r, c + 1, k, k);
                    vstd::arithmetic::div_mod::lemma_fundamental_div_mod_converse(
                        r * k + c + 1,
                        k,
                        r,
                        c + 1,
                    );
                    vstd::arithmetic::div_mod::lemma_fundamental_div_mod_converse(r * k + c, k, r, c);
                    assert(sa[i] == tex.color_at((x + r) % h, ((y + 1) % w + c) % w));
                    assert(sb[i] == tex.color_at((x + r) % h, (y + c + 1) % w));
                    lemma_mod_shift(y + 1, c, w);
                },
            }
        }
        assert(sa =~= sb);
    }
}

} // verus!
