use vstd::prelude::*;

pub mod ctable;
pub mod direction;
pub mod pattern;
pub mod raster;
pub mod rng;
pub mod table;
pub mod test_utils;
pub mod wfc;

pub use ctable::ConstraintsTable;
pub use direction::Direction;
pub use pattern::get_patterns;
pub use pattern::Pattern;
pub use raster::Color;
pub use raster::Texture;
pub use rng::RandomSource;
pub use table::Table;
pub use wfc::Wfc;
pub use wfc::WfcI;

verus! {

/// What one `generate` call is asked to do: the kernel (pattern) size and
/// the dimensions of the raster to synthesize.
pub struct Config {
    /// The side length of the square patterns read off the exemplar.
    pub pattern_size: usize,
    /// The width of the output raster.
    pub width: usize,
    /// The height of the output raster.
    pub height: usize,
}

/// The failures a generation run can report.
#[derive(Debug, Clone, Copy, PartialEq, Eq, Structural)]
pub enum WfcError {
    /// The kernel size is zero or exceeds a dimension of the exemplar.
    InvalidKernelSize,
    /// The requested output has a zero dimension.
    InvalidOutputSize,
    /// Extraction produced no pattern at all.
    EmptyPatternSet,
    /// Propagation emptied some cell's domain: no consistent assignment
    /// extends the choices made so far.
    Contradiction,
}

/// Whether the kernel size `k` is rejected up front: it must be at least
/// one and fit inside both dimensions of the exemplar.
pub open spec fn bad_kernel(image: Texture, k: int) -> bool {
    k < 1 || k > image.width || k > image.height
}

/// The pattern set `pats` and assignment `asn` explain the output `img` for
/// the exemplar `image` with kernel size `k`: the patterns are exactly the
/// distinct tiles of the exemplar, every cell of the output is painted with
/// the first pixel of its assigned pattern, and every pair of orthogonally
/// adjacent cells holds a pair of patterns whose overlap strips agree.
pub open spec fn generation_ok(
    image: Texture,
    k: int,
    width: int,
    height: int,
    img: Texture,
    pats: Seq<Pattern>,
    asn: Seq<usize>,
) -> bool {
    &&& pattern::extraction_wf(pats, image, k)
    &&& (forall|x: int, y: int|
        0 <= x < image.height && 0 <= y < image.width ==> pattern::contains_pixels(
            pats,
            #[trigger] pattern::sample(image, k, x, y),
        ))
    &&& asn.len() == width * height
    &&& (forall|c: int| 0 <= c < asn.len() ==> (#[trigger] asn[c]) < pats.len())
    &&& (forall|x: int, y: int|
        0 <= x < height && 0 <= y < width ==> #[trigger] img.color_at(x, y)
            == pats[asn[x * width + y] as int].pixels@[0])
    &&& (forall|c: int, d: Direction|
        0 <= c < asn.len() && #[trigger] wfc::has_nbr(width, height, c, d)
            ==> pattern::overlaps_spec(
            pats[asn[c] as int],
            pats[asn[wfc::nbr_of(width, c, d)] as int],
            d,
        ))
}

/// Synthesizes a new raster from the exemplar `image` by wave function
/// collapse: the distinct `pattern_size` by `pattern_size` tiles of the
/// exemplar are extracted under toroidal wrap, adjacency constraints are
/// computed from their overlaps, and an output grid of the requested size
/// is collapsed cell by cell, drawing from `rng` to break ties.
///
/// Invalid requests are rejected up front; a contradiction during
/// propagation aborts the run. On success the output is fully explained by
/// a pattern assignment in which every pair of adjacent cells overlaps
/// consistently.
pub fn generate(image: Texture, cfg: Config, rng: &mut RandomSource) -> (r: Result<
    Texture,
    WfcError,
>)
    requires
        image.wf(),
        image.height + cfg.pattern_size <= usize::MAX,
        image.width + cfg.pattern_size <= usize::MAX,
        cfg.pattern_size * cfg.pattern_size <= usize::MAX,
        cfg.width * cfg.height <= usize::MAX,
        (image.width * image.height) * (image.width * image.height) <= usize::MAX,
    ensures
        bad_kernel(image, cfg.pattern_size as int) <==> r == Result::<Texture, WfcError>::Err(
            WfcError::InvalidKernelSize,
        ),
        !bad_kernel(image, cfg.pattern_size as int) ==> ((cfg.width == 0 || cfg.height == 0)
            <==> r == Result::<Texture, WfcError>::Err(WfcError::InvalidOutputSize)),
        r != Result::<Texture, WfcError>::Err(WfcError::EmptyPatternSet),
        (!bad_kernel(image, cfg.pattern_size as int) && cfg.width >= 1 && cfg.height >= 1) ==> (
        r matches Result::Ok(_) || r == Result::<Texture, WfcError>::Err(WfcError::Contradiction)),
        (!bad_kernel(image, cfg.pattern_size as int) && cfg.width >= 1 && cfg.height >= 1
            && cfg.pattern_size == 1) ==> r matches Result::Ok(_),
        r matches Result::Ok(img) ==> {
            &&& img.wf()
            &&& img.width == cfg.width
            &&& img.height == cfg.height
            &&& exists|pats: Seq<Pattern>, asn: Seq<usize>|
                generation_ok(
                    image,
                    cfg.pattern_size as int,
                    cfg.width as int,
                    cfg.height as int,
                    img,
                    pats,
                    asn,
                )
        },
{
    let k = cfg.pattern_size;
    if k < 1 || k > image.width || k > image.height {
        return Result::Err(WfcError::InvalidKernelSize);
    }
    if cfg.width == 0 || cfg.height == 0 {
        return Result::Err(WfcError::InvalidOutputSize);
    }
    proof {
        assert(image.width * image.height <= usize::MAX) by (nonlinear_arith)
            requires
                image.width >= 1,
                image.height >= 1,
                (image.width * image.height) * (image.width * image.height) <= usize::MAX,
        ;
    }
    let patterns = pattern::get_patterns(&image, k);
    let ghost pats = patterns@;
    if patterns.len() == 0 {
        return Result::Err(WfcError::EmptyPatternSet);
    }
    proof {
        assert(pats.len() * pats.len() <= usize::MAX) by (nonlinear_arith)
            requires
                1 <= pats.len() <= image.width * image.height,
                (image.width * image.height) * (image.width * image.height) <= usize::MAX,
        ;
    }
    let solver = wfc::Wfc::new(patterns);
    proof {
        if k == 1 {
            // Overlap strips are empty for unit tiles, so the table allows
            // every pairing and a contradiction is impossible.
            assert forall|a: int, b: int, d: Direction|
                0 <= a < solver.ctable.n_patterns && 0 <= b
                    < solver.ctable.n_patterns implies #[trigger] solver.ctable.allows_spec(
                a,
                b,
                d,
            ) by {
                pattern::lemma_unit_patterns_always_overlap(pats[a], pats[b], d);
            }
            assert(ctable::all_allowed(solver.ctable));
        }
    }
    let result = solver.generate(cfg.width, cfg.height, rng);
    match result {
        Result::Err(e) => Result::Err(e),
        Result::Ok(img) => {
            proof {
                let asn = choose|asn: Seq<usize>|
                    solver.generated_from(img, asn, cfg.width as int, cfg.height as int);
                wfc::lemma_extracted_arcs_ok(
                    image,
                    k as int,
                    pats,
                    solver.ctable,
                    cfg.width as int,
                    cfg.height as int,
                );
                assert(wfc::sound_assignment(
                    solver.ctable,
                    asn,
                    cfg.width as int,
                    cfg.height as int,
                ));
                assert forall|c: int, d: Direction|
                    0 <= c < asn.len() && #[trigger] wfc::has_nbr(
                        cfg.width as int,
                        cfg.height as int,
                        c,
                        d,
                    ) implies pattern::overlaps_spec(
                    pats[asn[c] as int],
                    pats[asn[wfc::nbr_of(cfg.width as int, c, d)] as int],
                    d,
                ) by {
                    wfc::lemma_nbr_in_grid(cfg.width as int, cfg.height as int, c, d);
                }
                assert(generation_ok(
                    image,
                    k as int,
                    cfg.width as int,
                    cfg.height as int,
                    img,
                    pats,
                    asn,
                ));
            }
            Result::Ok(img)
        },
    }
}

} // verus!
