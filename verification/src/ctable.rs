use vstd::prelude::*;

use crate::direction::{opposite_of, Direction};
use crate::pattern::{lemma_overlap_symmetry, overlaps_spec, Pattern};
use crate::raster::lemma_pos_index_bound;

verus! {

/// Whether the direction bit of `d` is set in the mask `m`.
///
/// Bit `0` stands for `Up`, bit `1` for `Right`, bit `2` for `Down` and bit
/// `3` for `Left`, matching the integer encoding of directions.
pub open spec fn mask_allows(m: u8, d: Direction) -> bool {
    match d {
        Direction::Up => m & 0x1 != 0,
        Direction::Right => m & 0x2 != 0,
        Direction::Down => m & 0x4 != 0,
        Direction::Left => m & 0x8 != 0,
    }
}

/// The adjacency constraints between patterns.
///
/// For patterns `a` and `b` and direction `d`, the table answers whether `b`
/// may be placed immediately in direction `d` from `a`. Row `a * n + b` of
/// `masks` packs the four answers for the ordered pair `(a, b)` as one bit
/// per direction.
pub struct ConstraintsTable {
    pub masks: Vec<u8>,
    pub n_patterns: usize,
}

impl ConstraintsTable {
    /// One mask for every ordered pair of patterns.
    pub open spec fn wf(self) -> bool {
        self.masks@.len() == self.n_patterns * self.n_patterns
    }

    /// Whether pattern `b` may sit immediately in direction `d` from
    /// pattern `a`.
    pub open spec fn allows_spec(self, a: int, b: int, d: Direction) -> bool {
        mask_allows(self.masks@[a * self.n_patterns + b], d)
    }

    /// The table agrees with the overlap predicate on `patterns`.
    pub open spec fn matches(self, patterns: Seq<Pattern>) -> bool {
        &&& self.n_patterns == patterns.len()
        &&& forall|a: int, b: int, d: Direction|
            0 <= a < patterns.len() && 0 <= b < patterns.len() ==> #[trigger] self.allows_spec(
                a,
                b,
                d,
            ) == overlaps_spec(patterns[a], patterns[b], d)
    }

    /// Wraps a prebuilt vector of direction masks, one per ordered pattern
    /// pair, as a constraints table over `n_patterns` patterns.
    pub fn new(table: Vec<u8>, n_patterns: usize) -> (r: ConstraintsTable)
        requires
            table@.len() == n_patterns * n_patterns,
        ensures
            r.masks == table,
            r.n_patterns == n_patterns,
            r.wf(),
    {
        ConstraintsTable { masks: table, n_patterns }
    }

    /// The packed direction mask of the ordered pair `(a, b)`.
    pub fn mask(&self, a: usize, b: usize) -> (m: u8)
        requires
            self.wf(),
            a < self.n_patterns,
            b < self.n_patterns,
        ensures
            m == self.masks@[a as int * self.n_patterns as int + b as int],
    {
        let n = self.masks.len();
        proof {
            lemma_pos_index_bound(
                a as int,
                b as int,
                self.n_patterns as int,
                self.n_patterns as int,
            );
            assert(a as int * (self.n_patterns as int) + (b as int) < (n as int));
        }
        self.masks[a * self.n_patterns + b]
    }

    /// Whether pattern `b` may sit immediately in direction `d` from
    /// pattern `a`.
    pub fn allows(&self, a: usize, b: usize, d: Direction) -> (r: bool)
        requires
            self.wf(),
            a < self.n_patterns,
            b < self.n_patterns,
        ensures
            r == self.allows_spec(a as int, b as int, d),
    {
        let m = self.mask(a, b);
        match d {
            Direction::Up => m & 0x1 != 0,
            Direction::Right => m & 0x2 != 0,
            Direction::Down => m & 0x4 != 0,
            Direction::Left => m & 0x8 != 0,
        }
    }
}

/// The mask byte that answers the four directions as given: one bit per
/// direction in encoding order, all other bits clear.
pub open spec fn mask_of(up: bool, right: bool, down: bool, left: bool) -> u8 {
    ((if up {
        1int
    } else {
        0int
    }) + (if right {
        2int
    } else {
        0int
    }) + (if down {
        4int
    } else {
        0int
    }) + (if left {
        8int
    } else {
        0int
    })) as u8
}

/// Packs four overlap answers into one direction mask, with one bit per
/// direction in encoding order.
pub fn pack_mask(up: bool, right: bool, down: bool, left: bool) -> (m: u8)
    ensures
        m == mask_of(up, right, down, left),
        mask_allows(m, Direction::Up) == up,
        mask_allows(m, Direction::Right) == right,
        mask_allows(m, Direction::Down) == down,
        mask_allows(m, Direction::Left) == left,
{
    let a: u8 = if up { 0x1 } else { 0 };
    let b: u8 = if right { 0x2 } else { 0 };
    let c: u8 = if down { 0x4 } else { 0 };
    let d: u8 = if left { 0x8 } else { 0 };
    let m = a | b | c | d;
    proof {
        assert((a | b | c | d) & 0x1 == a && (a | b | c | d) & 0x2 == b && (a | b | c | d) & 0x4
            == c && (a | b | c | d) & 0x8 == d && (a | b | c | d) == (a + b + c + d))
            by (bit_vector)
            requires
                a == 0x0u8 || a == 0x1u8,
                b == 0x0u8 || b == 0x2u8,
                c == 0x0u8 || c == 0x4u8,
                d == 0x0u8 || d == 0x8u8,
        ;
        assert(m == mask_of(up, right, down, left));
    }
    m
}

/// Whether the table allows every pattern next to every pattern in every
/// direction.
pub open spec fn all_allowed(ct: ConstraintsTable) -> bool {
    forall|a: int, b: int, d: Direction|
        0 <= a < ct.n_patterns && 0 <= b < ct.n_patterns ==> #[trigger] ct.allows_spec(a, b, d)
}

/// The constraints table is symmetric: `b` fits in direction `d` from `a`
/// exactly when `a` fits in the opposite direction from `b`, for every pair
/// of patterns of the set the table was built from.
pub proof fn lemma_constraints_symmetry(
    ct: ConstraintsTable,
    patterns: Seq<Pattern>,
    a: int,
    b: int,
    d: Direction,
)
    requires
        ct.matches(patterns),
        0 <= a < patterns.len(),
        0 <= b < patterns.len(),
    ensures
        ct.allows_spec(a, b, d) == ct.allows_spec(b, a, opposite_of(d)),
{
    lemma_overlap_symmetry(patterns[a], patterns[b], d);
}

} // verus!
