use vstd::prelude::*;

use crate::pattern::{sample, Pattern};
use crate::raster::{Color, Texture};

verus! {

/// A grey test color that carries `id` in its red channel.
pub fn c(id: u8) -> (r: Color)
    ensures
        r == (Color { r: id, g: 0, b: 0 }),
{
    Color::new(id, 0, 0)
}

/// The pattern anchored at `pos` in `texture`, with the given id and size.
pub fn p(id: usize, size: usize, texture: &Texture, pos: (usize, usize)) -> (r: Pattern)
    requires
        texture.wf(),
        texture.width >= 1,
        texture.height >= 1,
        size >= 1,
        size * size <= usize::MAX,
        pos.0 + size <= usize::MAX,
        pos.1 + size <= usize::MAX,
    ensures
        r.id == id,
        r.size == size,
        r.wf(),
        r.pixels@ == sample(*texture, size as int, pos.0 as int, pos.1 as int),
{
    Pattern::new(id, size, texture, pos)
}

/// A square `size` by `size` texture whose pixel at `(x, y)` holds
/// `x * size + y` in its red channel.
pub fn img(size: usize) -> (t: Texture)
    requires
        1 <= size,
        size * size <= 255,
    ensures
        t.wf(),
        t.width == size,
        t.height == size,
        forall|x: int, y: int|
            0 <= x < size && 0 <= y < size ==> #[trigger] t.color_at(x, y) == (Color {
                r: (x * size + y) as u8,
                g: 0,
                b: 0,
            }),
{
    let mut texture = Texture::new(size, size);
    let mut count: u8 = 0;
    let mut x: usize = 0;
    while x < size
        invariant
            1 <= size,
            size * size <= 255,
            x <= size,
            count as int == x * size,
            x * size <= size * size,
            texture.wf(),
            texture.width == size,
            texture.height == size,
            forall|i: int, j: int|
                0 <= i < x && 0 <= j < size ==> #[trigger] texture.color_at(i, j) == (Color {
                    r: (i * size + j) as u8,
                    g: 0,
                    b: 0,
                }),
        decreases size - x,
    {
        proof {
            assert((x + 1) * size <= size * size && x * size + size == (x + 1) * size)
                by (nonlinear_arith)
                requires
                    x < size,
            ;
        }
        let mut y: usize = 0;
        while y < size
            invariant
                1 <= size,
                size * size <= 255,
                x < size,
                y <= size,
                count as int == x * size + y,
                x * size + size == (x + 1) * size,
                (x + 1) * size <= size * size,
                texture.wf(),
                texture.width == size,
                texture.height == size,
                forall|i: int, j: int|
                    0 <= i < x && 0 <= j < size ==> #[trigger] texture.color_at(i, j) == (Color {
                        r: (i * size + j) as u8,
                        g: 0,
                        b: 0,
                    }),
                forall|j: int|
                    0 <= j < y ==> #[trigger] texture.color_at(x as int, j) == (Color {
                        r: (x * size + j) as u8,
                        g: 0,
                        b: 0,
                    }),
            decreases size - y,
        {
            let ghost before = texture;
            texture.put_pixel(x, y, Color::new(count, 0, 0));
            proof {
                assert forall|i: int, j: int|
                    0 <= i < x && 0 <= j < size implies #[trigger] texture.color_at(i, j)
                        == (Color { r: (i * size + j) as u8, g: 0, b: 0 }) by {
                    assert(texture.color_at(i, j) == before.color_at(i, j));
                }
                assert forall|j: int|
                    0 <= j < y + 1 implies #[trigger] texture.color_at(x as int, j) == (Color {
                    r: (x * size + j) as u8,
                    g: 0,
                    b: 0,
                }) by {
                    if j < y {
                        assert(texture.color_at(x as int, j) == before.color_at(x as int, j));
                    }
                }
            }
            count = count + 1;
            y = y + 1;
        }
        x = x + 1;
    }
    texture
}

} // verus!
