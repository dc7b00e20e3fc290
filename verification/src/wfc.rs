use vstd::prelude::*;

use crate::ctable::ConstraintsTable;
use crate::direction::{step_of, Direction};
use crate::pattern::{overlaps_spec, Pattern};
use crate::raster::{lemma_pos_index_bound, Texture};
use crate::rng::RandomSource;
use crate::table::{nbr_in_bounds, Table};

verus! {

/// The per-cell domains of an entropy table, as mathematical sequences.
pub open spec fn doms_of(t: Table<Vec<usize>>) -> Seq<Seq<usize>> {
    Seq::new(t.collection@.len(), |i: int| t.collection@[i]@)
}

/// A single cell's domain is a duplicate-free set of pattern ids below `p`.
pub open spec fn domain_wf(d: Seq<usize>, p: int) -> bool {
    &&& d.no_duplicates()
    &&& forall|i: int| 0 <= i < d.len() ==> (#[trigger] d[i]) < p
}

/// Every cell's domain is well formed.
pub open spec fn doms_wf(doms: Seq<Seq<usize>>, p: int) -> bool {
    forall|c: int| 0 <= c < doms.len() ==> domain_wf(#[trigger] doms[c], p)
}

/// No cell's domain is empty.
pub open spec fn all_nonempty(doms: Seq<Seq<usize>>) -> bool {
    forall|c: int| 0 <= c < doms.len() ==> (#[trigger] doms[c]).len() >= 1
}

/// Every cell's domain is a singleton: the grid is fully collapsed.
pub open spec fn all_singleton(doms: Seq<Seq<usize>>) -> bool {
    forall|c: int| 0 <= c < doms.len() ==> (#[trigger] doms[c]).len() == 1
}

/// Whether the cell at linear index `c` has an in-bounds neighbour in
/// direction `d`, in a grid of `w` columns and `h` rows.
pub open spec fn has_nbr(w: int, h: int, c: int, d: Direction) -> bool {
    nbr_in_bounds(w, h, c / w, c % w, d)
}

/// The linear index of the neighbour of cell `c` in direction `d`.
pub open spec fn nbr_of(w: int, c: int, d: Direction) -> int {
    let p = step_of(d, c / w, c % w);
    p.0 * w + p.1
}

/// Whether some pattern still in `src` permits `q` next to it in direction
/// `d`.
pub open spec fn has_support(
    ct: ConstraintsTable,
    src: Seq<usize>,
    q: usize,
    d: Direction,
) -> bool {
    exists|i: int| 0 <= i < src.len() && ct.allows_spec(src[i] as int, q as int, d)
}

/// The arc from a source domain to a neighbouring domain is consistent:
/// every candidate of the neighbour is supported by the source.
pub open spec fn arc_ok(
    ct: ConstraintsTable,
    src: Seq<usize>,
    dst: Seq<usize>,
    d: Direction,
) -> bool {
    forall|j: int| 0 <= j < dst.len() ==> has_support(ct, src, #[trigger] dst[j], d)
}

/// Every arc of the grid whose source cell is not marked is consistent.
pub open spec fn arcs_ok_except(
    ct: ConstraintsTable,
    doms: Seq<Seq<usize>>,
    w: int,
    h: int,
    marks: Seq<bool>,
) -> bool {
    forall|c: int, d: Direction|
        0 <= c < doms.len() && #[trigger] has_nbr(w, h, c, d) && !marks[c] ==> arc_ok(
            ct,
            doms[c],
            doms[nbr_of(w, c, d)],
            d,
        )
}

/// Every arc of the grid except those leaving cell `excl` is consistent.
pub open spec fn arcs_ok_unless(
    ct: ConstraintsTable,
    doms: Seq<Seq<usize>>,
    w: int,
    h: int,
    excl: int,
) -> bool {
    forall|c: int, d: Direction|
        0 <= c < doms.len() && #[trigger] has_nbr(w, h, c, d) && c != excl ==> arc_ok(
            ct,
            doms[c],
            doms[nbr_of(w, c, d)],
            d,
        )
}

/// Every arc of the grid is consistent.
pub open spec fn arcs_ok(ct: ConstraintsTable, doms: Seq<Seq<usize>>, w: int, h: int) -> bool {
    forall|c: int, d: Direction|
        0 <= c < doms.len() && #[trigger] has_nbr(w, h, c, d) ==> arc_ok(
            ct,
            doms[c],
            doms[nbr_of(w, c, d)],
            d,
        )
}

/// The neighbour of an in-grid cell is again an in-grid cell.
pub proof fn lemma_nbr_in_grid(w: int, h: int, c: int, d: Direction)
    requires
        w >= 1,
        h >= 1,
        0 <= c < w * h,
        has_nbr(w, h, c, d),
    ensures
        0 <= nbr_of(w, c, d) < w * h,
        nbr_of(w, c, d) != c,
{
    vstd::arithmetic::div_mod::lemma_mod_multiples_basic(h, w);
    assert(w * h == h * w) by (nonlinear_arith);
    crate::table::lemma_table_pos_bounds(c, w, w * h);
    let x = c / w;
    let y = c % w;
    let p = step_of(d, x, y);
    lemma_pos_index_bound(p.0, p.1, w, h);
    assert(c == x * w + y);
    if p.0 * w + p.1 == x * w + y {
        crate::raster::lemma_pos_index_injective(p.0, p.1, x, y, w);
    }
}

/// Distinct in-bounds directions from one cell lead to distinct neighbours.
pub proof fn lemma_nbrs_distinct(w: int, h: int, c: int, d1: Direction, d2: Direction)
    requires
        w >= 1,
        h >= 1,
        0 <= c < w * h,
        has_nbr(w, h, c, d1),
        has_nbr(w, h, c, d2),
        d1 != d2,
    ensures
        nbr_of(w, c, d1) != nbr_of(w, c, d2),
{
    vstd::arithmetic::div_mod::lemma_mod_multiples_basic(h, w);
    assert(w * h == h * w) by (nonlinear_arith);
    crate::table::lemma_table_pos_bounds(c, w, w * h);
    let x = c / w;
    let y = c % w;
    let p1 = step_of(d1, x, y);
    let p2 = step_of(d2, x, y);
    if p1.0 * w + p1.1 == p2.0 * w + p2.1 {
        crate::raster::lemma_pos_index_injective(p1.0, p1.1, p2.0, p2.1, w);
    }
}

/// The total of all domain sizes: the solver's progress measure.
pub open spec fn sum_lens(doms: Seq<Seq<usize>>) -> int
    decreases doms.len(),
{
    if doms.len() == 0 {
        0
    } else {
        doms[0].len() + sum_lens(doms.drop_first())
    }
}

/// Replacing one domain changes the total by the difference of sizes.
pub proof fn lemma_sum_lens_update(doms: Seq<Seq<usize>>, c: int, v: Seq<usize>)
    requires
        0 <= c < doms.len(),
    ensures
        sum_lens(doms.update(c, v)) == sum_lens(doms) - doms[c].len() + v.len(),
    decreases doms.len(),
{
    let u = doms.update(c, v);
    if c == 0 {
        assert(u.drop_first() =~= doms.drop_first());
        assert(u[0] == v);
    } else {
        assert(u.drop_first() =~= doms.drop_first().update(c - 1, v));
        assert(u[0] == doms[0]);
        lemma_sum_lens_update(doms.drop_first(), c - 1, v);
    }
}

/// The progress measure is never negative.
pub proof fn lemma_sum_lens_nonneg(doms: Seq<Seq<usize>>)
    ensures
        sum_lens(doms) >= 0,
    decreases doms.len(),
{
    if doms.len() > 0 {
        lemma_sum_lens_nonneg(doms.drop_first());
    }
}

/// Filtering keeps only elements of the original sequence.
pub proof fn lemma_filter_subset(s: Seq<usize>, pred: spec_fn(usize) -> bool)
    ensures
        forall|i: int|
            0 <= i < s.filter(pred).len() ==> s.contains(#[trigger] s.filter(pred)[i]),
    decreases s.len(),
{
    reveal(Seq::filter);
    if s.len() > 0 {
        let rest = s.drop_last();
        lemma_filter_subset(rest, pred);
        assert forall|i: int|
            0 <= i < s.filter(pred).len() implies s.contains(#[trigger] s.filter(pred)[i]) by {
            if i < rest.filter(pred).len() {
                assert(rest.filter(pred)[i] == s.filter(pred)[i]);
                assert(rest.contains(rest.filter(pred)[i]));
                let j = choose|j: int| 0 <= j < rest.len() && rest[j] == rest.filter(pred)[i];
                assert(s[j] == s.filter(pred)[i]);
            } else {
                assert(s.filter(pred)[i] == s.last());
                assert(s[s.len() - 1] == s.last());
            }
        }
    }
}

/// Filtering a duplicate-free sequence yields a duplicate-free sequence.
pub proof fn lemma_filter_no_dup(s: Seq<usize>, pred: spec_fn(usize) -> bool)
    requires
        s.no_duplicates(),
    ensures
        s.filter(pred).no_duplicates(),
    decreases s.len(),
{
    reveal(Seq::filter);
    if s.len() > 0 {
        let rest = s.drop_last();
        assert(rest.no_duplicates());
        lemma_filter_no_dup(rest, pred);
        if pred(s.last()) {
            lemma_filter_subset(rest, pred);
            assert(!rest.contains(s.last())) by {
                if rest.contains(s.last()) {
                    let j = choose|j: int| 0 <= j < rest.len() && rest[j] == s.last();
                    assert(s[j] == s[s.len() - 1]);
                }
            }
            assert(s.filter(pred) == rest.filter(pred).push(s.last()));
            assert forall|i: int, j: int|
                0 <= i < s.filter(pred).len() && 0 <= j < s.filter(pred).len() && i != j implies s
                .filter(pred)[i] != s.filter(pred)[j] by {
                let f = s.filter(pred);
                let rf = rest.filter(pred);
                if i < rf.len() && j < rf.len() {
                    assert(rf[i] != rf[j]);
                } else if i < rf.len() {
                    assert(f[j] == s.last() && f[i] == rf[i]);
                    assert(rest.contains(rf[i]));
                } else if j < rf.len() {
                    assert(f[i] == s.last() && f[j] == rf[j]);
                    assert(rest.contains(rf[j]));
                }
            }
        }
    }
}

/// A filter whose predicate holds of every element keeps the whole
/// sequence.
pub proof fn lemma_filter_all(s: Seq<usize>, pred: spec_fn(usize) -> bool)
    requires
        forall|i: int| 0 <= i < s.len() ==> pred(#[trigger] s[i]),
    ensures
        s.filter(pred) == s,
    decreases s.len(),
{
    reveal(Seq::filter);
    if s.len() > 0 {
        let rest = s.drop_last();
        lemma_filter_all(rest, pred);
        assert(pred(s[s.len() - 1]));
        assert(s.filter(pred) =~= s);
    } else {
        assert(s.filter(pred) =~= s);
    }
}

/// A filter that keeps the whole length keeps the whole sequence.
pub proof fn lemma_filter_full(s: Seq<usize>, pred: spec_fn(usize) -> bool)
    requires
        s.filter(pred).len() == s.len(),
    ensures
        s.filter(pred) == s,
    decreases s.len(),
{
    reveal(Seq::filter);
    if s.len() > 0 {
        let rest = s.drop_last();
        rest.lemma_filter_len(pred);
        if pred(s.last()) {
            assert(s.filter(pred) == rest.filter(pred).push(s.last()));
            lemma_filter_full(rest, pred);
            assert(s.filter(pred) =~= s);
        } else {
            assert(s.filter(pred) == rest.filter(pred));
            assert(false);
        }
    } else {
        assert(s.filter(pred) =~= s);
    }
}

/// Appending one element extends the filter by that element exactly when it
/// satisfies the predicate.
pub proof fn lemma_filter_push(s: Seq<usize>, x: usize, pred: spec_fn(usize) -> bool)
    ensures
        s.push(x).filter(pred) == if pred(x) {
            s.filter(pred).push(x)
        } else {
            s.filter(pred)
        },
{
    reveal(Seq::filter);
    assert(s.push(x).drop_last() =~= s);
    assert(s.push(x).last() == x);
}

/// Composing two filters is filtering by the conjunction.
pub proof fn lemma_filter_compose(
    s: Seq<usize>,
    p: spec_fn(usize) -> bool,
    q: spec_fn(usize) -> bool,
    pq: spec_fn(usize) -> bool,
)
    requires
        forall|x: usize| #[trigger] pq(x) == (p(x) && q(x)),
    ensures
        s.filter(p).filter(q) == s.filter(pq),
    decreases s.len(),
{
    reveal(Seq::filter);
    if s.len() == 0 {
        assert(s.filter(p).filter(q) =~= s.filter(pq));
    } else {
        let rest = s.drop_last();
        let l = s.last();
        lemma_filter_compose(rest, p, q, pq);
        if p(l) {
            assert(s.filter(p) == rest.filter(p).push(l));
            lemma_filter_push(rest.filter(p), l, q);
        } else {
            assert(s.filter(p) == rest.filter(p));
        }
        assert(pq(l) == (p(l) && q(l)));
    }
}

/// Whether each element of `sub` occurs in `sup`.
pub open spec fn subdomain_of(sub: Seq<usize>, sup: Seq<usize>) -> bool {
    forall|j: int| 0 <= j < sub.len() ==> sup.contains(#[trigger] sub[j])
}

/// Whether every cell of `f` holds a subset of the matching cell of `g`.
pub open spec fn family_sub(f: Seq<Seq<usize>>, g: Seq<Seq<usize>>) -> bool {
    &&& f.len() == g.len()
    &&& forall|c: int| 0 <= c < f.len() ==> subdomain_of(#[trigger] f[c], g[c])
}

/// Whether `sub` is the restriction of `sup` to the values `sub` holds:
/// an order-preserving selection from `sup`.
pub open spec fn restriction_of(sub: Seq<usize>, sup: Seq<usize>) -> bool {
    sub == sup.filter(|x: usize| sub.contains(x))
}

/// Whether every cell of `cur` is an order-preserving restriction of the
/// matching cell of `init`.
pub open spec fn restrictions_of(cur: Seq<Seq<usize>>, init: Seq<Seq<usize>>) -> bool {
    &&& cur.len() == init.len()
    &&& forall|c: int| 0 <= c < cur.len() ==> restriction_of(#[trigger] cur[c], init[c])
}

/// A value is kept by a filter exactly when the sequence holds it and it
/// satisfies the predicate.
pub proof fn lemma_filter_mem(s: Seq<usize>, pred: spec_fn(usize) -> bool, x: usize)
    ensures
        s.filter(pred).contains(x) == (s.contains(x) && pred(x)),
{
    if s.filter(pred).contains(x) {
        let j = choose|j: int| 0 <= j < s.filter(pred).len() && s.filter(pred)[j] == x;
        lemma_filter_subset(s, pred);
        s.lemma_filter_pred(pred, j);
        assert(s.contains(s.filter(pred)[j]));
    }
    if s.contains(x) && pred(x) {
        let i = choose|i: int| 0 <= i < s.len() && s[i] == x;
        s.lemma_filter_contains(pred, i);
    }
}

/// Filters whose predicates agree on every element of the sequence are
/// equal.
pub proof fn lemma_filter_congruent(
    s: Seq<usize>,
    p: spec_fn(usize) -> bool,
    q: spec_fn(usize) -> bool,
)
    requires
        forall|i: int| 0 <= i < s.len() ==> p(#[trigger] s[i]) == q(s[i]),
    ensures
        s.filter(p) == s.filter(q),
    decreases s.len(),
{
    reveal(Seq::filter);
    if s.len() == 0 {
        assert(s.filter(p) =~= s.filter(q));
    } else {
        let rest = s.drop_last();
        lemma_filter_congruent(rest, p, q);
        assert(p(s[s.len() - 1]) == q(s[s.len() - 1]));
    }
}

/// Every family of domains is a restriction of itself.
pub proof fn lemma_restrictions_refl(doms: Seq<Seq<usize>>)
    ensures
        restrictions_of(doms, doms),
{
    assert forall|c: int| 0 <= c < doms.len() implies restriction_of(
        #[trigger] doms[c],
        doms[c],
    ) by {
        let mem = |x: usize| doms[c].contains(x);
        assert forall|i: int| 0 <= i < doms[c].len() implies mem(#[trigger] doms[c][i]) by {}
        lemma_filter_all(doms[c], mem);
    }
}

/// Filtering one cell of a restriction family yields a restriction family.
pub proof fn lemma_restrictions_step(
    init: Seq<Seq<usize>>,
    prev: Seq<Seq<usize>>,
    cur: Seq<Seq<usize>>,
    nb: int,
    pred: spec_fn(usize) -> bool,
)
    requires
        restrictions_of(prev, init),
        0 <= nb < prev.len(),
        cur == prev.update(nb, prev[nb].filter(pred)),
    ensures
        restrictions_of(cur, init),
{
    assert forall|c: int| 0 <= c < cur.len() implies restriction_of(
        #[trigger] cur[c],
        init[c],
    ) by {
        if c == nb {
            let mp = |x: usize| prev[nb].contains(x);
            let mppred = |x: usize| mp(x) && pred(x);
            let mc = |x: usize| cur[nb].contains(x);
            assert(restriction_of(prev[nb], init[nb]));
            lemma_filter_compose(init[nb], mp, pred, mppred);
            assert(cur[nb] == init[nb].filter(mppred));
            assert forall|i: int| 0 <= i < init[nb].len() implies mppred(
                #[trigger] init[nb][i],
            ) == mc(init[nb][i]) by {
                lemma_filter_mem(init[nb], mppred, init[nb][i]);
            }
            lemma_filter_congruent(init[nb], mppred, mc);
        } else {
            assert(restriction_of(prev[c], init[c]));
        }
    }
}

/// Restrictions of one family that hold the same values are equal: the
/// membership decides the whole sequence.
pub proof fn lemma_restriction_unique(a: Seq<usize>, b: Seq<usize>, s: Seq<usize>)
    requires
        restriction_of(a, s),
        restriction_of(b, s),
        forall|x: usize| #[trigger] a.contains(x) == b.contains(x),
    ensures
        a == b,
{
    let ma = |x: usize| a.contains(x);
    let mb = |x: usize| b.contains(x);
    assert forall|i: int| 0 <= i < s.len() implies ma(#[trigger] s[i]) == mb(s[i]) by {}
    lemma_filter_congruent(s, ma, mb);
}

/// Whether some pattern of `src` supports `q` in direction `d`.
fn supported(ct: &ConstraintsTable, src: &Vec<usize>, q: usize, d: Direction) -> (r: bool)
    requires
        ct.wf(),
        q < ct.n_patterns,
        forall|i: int| 0 <= i < src@.len() ==> (#[trigger] src@[i]) < ct.n_patterns,
    ensures
        r == has_support(*ct, src@, q, d),
{
    let n = src.len();
    let mut i: usize = 0;
    while i < n
        invariant
            ct.wf(),
            q < ct.n_patterns,
            n == src@.len(),
            i <= n,
            forall|j: int| 0 <= j < src@.len() ==> (#[trigger] src@[j]) < ct.n_patterns,
            forall|j: int| 0 <= j < i ==> !ct.allows_spec(src@[j] as int, q as int, d),
        decreases n - i,
    {
        if ct.allows(src[i], q, d) {
            return true;
        }
        i = i + 1;
    }
    false
}

/// The candidates of `dst` that keep at least one supporting pattern in
/// `src` for direction `d`: the support-based pruning step of the
/// propagator.
fn revise(ct: &ConstraintsTable, src: &Vec<usize>, dst: &Vec<usize>, d: Direction) -> (r: Vec<
    usize,
>)
    requires
        ct.wf(),
        forall|i: int| 0 <= i < src@.len() ==> (#[trigger] src@[i]) < ct.n_patterns,
        forall|i: int| 0 <= i < dst@.len() ==> (#[trigger] dst@[i]) < ct.n_patterns,
    ensures
        r@ == dst@.filter(|q: usize| has_support(*ct, src@, q, d)),
{
    let ghost pred = |q: usize| has_support(*ct, src@, q, d);
    let n = dst.len();
    let mut r: Vec<usize> = Vec::new();
    proof {
        reveal(Seq::filter);
        assert(dst@.take(0) =~= Seq::<usize>::empty());
        assert(r@ =~= dst@.take(0).filter(pred));
    }
    let mut i: usize = 0;
    while i < n
        invariant
            ct.wf(),
            n == dst@.len(),
            i <= n,
            forall|j: int| 0 <= j < src@.len() ==> (#[trigger] src@[j]) < ct.n_patterns,
            forall|j: int| 0 <= j < dst@.len() ==> (#[trigger] dst@[j]) < ct.n_patterns,
            pred == (|q: usize| has_support(*ct, src@, q, d)),
            r@ == dst@.take(i as int).filter(pred),
        decreases n - i,
    {
        let q = dst[i];
        proof {
            lemma_filter_push(dst@.take(i as int), q, pred);
            assert(dst@.take(i as int).push(q) =~= dst@.take(i as int + 1));
        }
        if supported(ct, src, q, d) {
            r.push(q);
        }
        i = i + 1;
    }
    proof {
        assert(dst@.take(n as int) =~= dst@);
    }
    r
}

/// The number of cells among the first `n` whose domain size is exactly `m`.
pub open spec fn count_len_upto(doms: Seq<Seq<usize>>, m: int, n: int) -> int
    decreases n,
{
    if n <= 0 {
        0
    } else {
        count_len_upto(doms, m, n - 1) + if doms[n - 1].len() == m {
            1int
        } else {
            0int
        }
    }
}

/// The smallest domain size of an undecided cell among the first `n` cells,
/// or one past `usize::MAX` when none of them is undecided.
pub open spec fn undecided_min_upto(doms: Seq<Seq<usize>>, n: int) -> int
    decreases n,
{
    if n <= 0 {
        usize::MAX as int + 1
    } else {
        let rest = undecided_min_upto(doms, n - 1);
        let l = doms[n - 1].len() as int;
        if l >= 2 && l < rest {
            l
        } else {
            rest
        }
    }
}

/// The minimum entropy of the grid: the smallest domain size among cells
/// that still hold more than one candidate.
pub open spec fn undecided_min(doms: Seq<Seq<usize>>) -> int {
    undecided_min_upto(doms, doms.len() as int)
}

/// What the minimum is: either no cell is undecided, or the minimum is the
/// size of some undecided cell and no undecided cell is smaller.
pub proof fn lemma_min_props(doms: Seq<Seq<usize>>, n: int)
    requires
        n <= doms.len(),
    ensures
        undecided_min_upto(doms, n) == usize::MAX as int + 1 || (2 <= undecided_min_upto(doms, n)
            <= usize::MAX && exists|c: int|
            0 <= c < n && (#[trigger] doms[c]).len() == undecided_min_upto(doms, n)),
        forall|c: int|
            0 <= c < n && (#[trigger] doms[c]).len() >= 2 ==> doms[c].len() >= undecided_min_upto(
                doms,
                n,
            ),
    decreases n,
{
    if n > 0 {
        lemma_min_props(doms, n - 1);
    }
}

/// Counting over a longer prefix never counts less.
pub proof fn lemma_count_le(doms: Seq<Seq<usize>>, m: int, a: int, b: int)
    requires
        0 <= a <= b,
    ensures
        count_len_upto(doms, m, a) <= count_len_upto(doms, m, b),
    decreases b,
{
    if a < b {
        lemma_count_le(doms, m, a, b - 1);
    }
}

/// The count is never negative.
pub proof fn lemma_count_nonneg(doms: Seq<Seq<usize>>, m: int, n: int)
    ensures
        count_len_upto(doms, m, n) >= 0,
    decreases n,
{
    if n > 0 {
        lemma_count_nonneg(doms, m, n - 1);
    }
}

/// A cell of size `m` below `n` makes the count over `n` positive.
pub proof fn lemma_count_pos(doms: Seq<Seq<usize>>, m: int, c: int, n: int)
    requires
        0 <= c < n,
        doms[c].len() == m,
    ensures
        count_len_upto(doms, m, n) >= 1,
{
    lemma_count_nonneg(doms, m, c);
    assert(count_len_upto(doms, m, c + 1) >= 1);
    lemma_count_le(doms, m, c + 1, n);
}

/// The observation step is deterministic: the minimum-entropy cell with a
/// given number of minimum-entropy cells before it is unique, so equal
/// domains and an equal draw pick the same cell.
pub proof fn lemma_observe_choice_unique(doms: Seq<Seq<usize>>, m: int, i1: int, i2: int)
    requires
        0 <= i1 < doms.len(),
        0 <= i2 < doms.len(),
        doms[i1].len() == m,
        doms[i2].len() == m,
        count_len_upto(doms, m, i1) == count_len_upto(doms, m, i2),
    ensures
        i1 == i2,
{
    if i1 < i2 {
        assert(count_len_upto(doms, m, i1 + 1) == count_len_upto(doms, m, i1) + 1);
        lemma_count_le(doms, m, i1 + 1, i2);
    }
    if i2 < i1 {
        assert(count_len_upto(doms, m, i2 + 1) == count_len_upto(doms, m, i2) + 1);
        lemma_count_le(doms, m, i2 + 1, i1);
    }
}

/// The state of one generation run: the entropy table, whose cells hold the
/// ids of the patterns still possible there, and the number of patterns.
pub struct WfcI {
    pub etable: Table<Vec<usize>>,
    pub n_patterns: usize,
}

impl WfcI {
    /// The per-cell domains as mathematical sequences.
    pub open spec fn doms(self) -> Seq<Seq<usize>> {
        doms_of(self.etable)
    }

    /// The number of grid columns.
    pub open spec fn grid_w(self) -> int {
        self.etable.width as int
    }

    /// The number of grid rows.
    pub open spec fn grid_h(self) -> int {
        self.etable.spec_height()
    }

    /// The grid is rectangular and every domain is a duplicate-free set of
    /// pattern ids.
    pub open spec fn wf(self) -> bool {
        &&& self.etable.wf()
        &&& self.n_patterns >= 1
        &&& doms_wf(self.doms(), self.n_patterns as int)
        &&& self.grid_w() * self.grid_h() == self.doms().len()
    }

    /// Wraps an entropy table over `n_patterns` patterns.
    pub fn new(etable: Table<Vec<usize>>, n_patterns: usize) -> (r: WfcI)
        requires
            etable.wf(),
            n_patterns >= 1,
            doms_wf(doms_of(etable), n_patterns as int),
        ensures
            r.etable == etable,
            r.n_patterns == n_patterns,
            r.wf(),
    {
        proof {
            vstd::arithmetic::div_mod::lemma_fundamental_div_mod(
                etable.collection@.len() as int,
                etable.width as int,
            );
            assert(etable.width as int * (etable.collection@.len() as int / etable.width as int)
                == etable.collection@.len() as int);
        }
        WfcI { etable, n_patterns }
    }

    /// Collapses the minimum-entropy cell named by the two draws: the
    /// `c_choice`-th cell (in cell order) among those of minimum entropy is
    /// reduced to the `p_choice`-th pattern of its domain. The result is a
    /// function of the state and the two draws alone.
    pub fn observe_with(&mut self, c_choice: usize, p_choice: usize) -> (idx: usize)
        requires
            old(self).wf(),
            all_nonempty(old(self).doms()),
            undecided_min(old(self).doms()) <= usize::MAX,
            c_choice < count_len_upto(
                old(self).doms(),
                undecided_min(old(self).doms()),
                old(self).doms().len() as int,
            ),
            p_choice < undecided_min(old(self).doms()),
        ensures
            final(self).n_patterns == old(self).n_patterns,
            final(self).etable.width == old(self).etable.width,
            final(self).wf(),
            all_nonempty(final(self).doms()),
            idx < old(self).doms().len(),
            old(self).doms()[idx as int].len() == undecided_min(old(self).doms()),
            count_len_upto(old(self).doms(), undecided_min(old(self).doms()), idx as int)
                == c_choice,
            final(self).doms() == old(self).doms().update(
                idx as int,
                seq![old(self).doms()[idx as int][p_choice as int]],
            ),
    {
        let ghost doms0 = self.doms();
        let len = self.etable.len();
        let mut best: Option<usize> = None;
        let mut c: usize = 0;
        while c < len
            invariant
                self == old(self),
                self.wf(),
                len == self.doms().len(),
                c <= len,
                best matches Option::None ==> undecided_min_upto(self.doms(), c as int)
                    == usize::MAX as int + 1,
                best matches Option::None ==> forall|cc: int|
                    0 <= cc < c ==> (#[trigger] self.doms()[cc]).len() <= 1,
                best matches Option::Some(m) ==> m as int == undecided_min_upto(
                    self.doms(),
                    c as int,
                ),
            decreases len - c,
        {
            let l = self.etable.at(c).len();
            if l >= 2 {
                best = match best {
                    Option::None => Option::Some(l),
                    Option::Some(m) => if l < m {
                        Option::Some(l)
                    } else {
                        Option::Some(m)
                    },
                };
            }
            c = c + 1;
        }
        let m = match best {
            Option::Some(m) => m,
            Option::None => {
                proof {
                    assert(false);
                }
                0
            },
        };
        let mut seen: usize = 0;
        let mut i: usize = 0;
        let mut found: Option<usize> = None;
        while found.is_none() && i < len
            invariant
                self == old(self),
                self.wf(),
                len == self.doms().len(),
                m as int == undecided_min(self.doms()),
                i <= len,
                c_choice < count_len_upto(self.doms(), m as int, len as int),
                found matches Option::None ==> seen == count_len_upto(self.doms(), m as int, i as int)
                    && seen <= c_choice,
                found matches Option::Some(idx) ==> 0 <= idx < len && self.doms()[idx as int].len()
                    == m && count_len_upto(self.doms(), m as int, idx as int) == c_choice,
            decreases len - i, (if found.is_none() { 1int } else { 0int }),
        {
            let l = self.etable.at(i).len();
            if l == m {
                if seen == c_choice {
                    found = Option::Some(i);
                } else {
                    seen = seen + 1;
                    i = i + 1;
                }
            } else {
                i = i + 1;
            }
        }
        let idx = match found {
            Option::Some(idx) => idx,
            Option::None => {
                proof {
                    lemma_count_le(self.doms(), m as int, len as int, len as int);
                    assert(seen == count_len_upto(self.doms(), m as int, len as int));
                    assert(false);
                }
                0
            },
        };
        let cell = self.etable.at(idx);
        let p = cell[p_choice];
        let mut nv: Vec<usize> = Vec::new();
        nv.push(p);
        let ghost nvs = nv@;
        self.etable.set(idx, nv);
        proof {
            assert(nvs =~= seq![p]);
            assert(self.doms() =~= doms0.update(idx as int, seq![p]));
            assert(seq![p].no_duplicates());
            assert forall|cc: int| 0 <= cc < self.doms().len() implies domain_wf(
                #[trigger] self.doms()[cc],
                self.n_patterns as int,
            ) by {
                if cc != idx {
                    assert(self.doms()[cc] == doms0[cc]);
                    assert(domain_wf(doms0[cc], self.n_patterns as int));
                } else {
                    assert(doms0[idx as int][p_choice as int] < self.n_patterns);
                }
            }
        }
        idx
    }

    /// Observes one cell: picks, uniformly at random, one cell among those
    /// of minimum entropy greater than one, collapses it to one of its
    /// candidates picked uniformly at random, and returns its linear index;
    /// returns nothing once every cell is decided.
    pub fn observe(&mut self, rng: &mut RandomSource) -> (r: Option<usize>)
        requires
            old(self).wf(),
            all_nonempty(old(self).doms()),
        ensures
            final(self).n_patterns == old(self).n_patterns,
            final(self).etable.width == old(self).etable.width,
            final(self).wf(),
            all_nonempty(final(self).doms()),
            r matches Option::None ==> *final(self) == *old(self) && all_singleton(
                old(self).doms(),
            ),
            r matches Option::Some(idx) ==> {
                &&& idx < old(self).doms().len()
                &&& old(self).doms()[idx as int].len() >= 2
                &&& forall|c: int|
                    0 <= c < old(self).doms().len() && (#[trigger] old(self).doms()[c]).len() >= 2
                        ==> old(self).doms()[c].len() >= old(self).doms()[idx as int].len()
                &&& exists|p: usize|
                    old(self).doms()[idx as int].contains(p) && final(self).doms() == old(
                        self,
                    ).doms().update(idx as int, seq![p])
                &&& sum_lens(final(self).doms()) < sum_lens(old(self).doms())
            },
    {
        let ghost doms0 = self.doms();
        let len = self.etable.len();
        let mut best: Option<usize> = None;
        let mut c: usize = 0;
        while c < len
            invariant
                self == old(self),
                self.wf(),
                len == self.doms().len(),
                c <= len,
                best matches Option::None ==> undecided_min_upto(self.doms(), c as int)
                    == usize::MAX as int + 1,
                best matches Option::None ==> forall|cc: int|
                    0 <= cc < c ==> (#[trigger] self.doms()[cc]).len() <= 1,
                best matches Option::Some(m) ==> m as int == undecided_min_upto(
                    self.doms(),
                    c as int,
                ),
            decreases len - c,
        {
            let l = self.etable.at(c).len();
            if l >= 2 {
                best = match best {
                    Option::None => Option::Some(l),
                    Option::Some(m) => if l < m {
                        Option::Some(l)
                    } else {
                        Option::Some(m)
                    },
                };
            }
            c = c + 1;
        }
        let m = match best {
            Option::Some(m) => m,
            Option::None => {
                proof {
                    lemma_min_props(doms0, len as int);
                    assert forall|cc: int| 0 <= cc < doms0.len() implies (
                    #[trigger] doms0[cc]).len() == 1 by {
                        assert(doms0[cc].len() >= 1);
                        if doms0[cc].len() >= 2 {
                            assert(doms0[cc].len() >= usize::MAX as int + 1);
                        }
                    }
                }
                return Option::None;
            },
        };
        proof {
            lemma_min_props(doms0, len as int);
        }
        let mut cnt: usize = 0;
        let mut i: usize = 0;
        while i < len
            invariant
                self == old(self),
                self.wf(),
                len == self.doms().len(),
                i <= len,
                cnt == count_len_upto(self.doms(), m as int, i as int),
                cnt <= i,
            decreases len - i,
        {
            let l = self.etable.at(i).len();
            if l == m {
                cnt = cnt + 1;
            }
            i = i + 1;
        }
        proof {
            let mc = choose|cc: int| 0 <= cc < len && (#[trigger] doms0[cc]).len() == m as int;
            lemma_count_pos(doms0, m as int, mc, len as int);
        }
        let j1 = rng.next_below(cnt);
        let j2 = rng.next_below(m);
        let idx = self.observe_with(j1, j2);
        proof {
            let p = doms0[idx as int][j2 as int];
            assert(doms0[idx as int].contains(p));
            lemma_sum_lens_update(doms0, idx as int, seq![p]);
            lemma_min_props(doms0, len as int);
        }
        Option::Some(idx)
    }
}

/// The bookkeeping of the propagation stack: the marks name exactly the
/// cells on the stack, and the stack holds no cell twice.
pub open spec fn stack_inv(stack: Seq<usize>, marks: Seq<bool>, len: int) -> bool {
    &&& marks.len() == len
    &&& stack.no_duplicates()
    &&& forall|j: int|
        0 <= j < stack.len() ==> ((#[trigger] stack[j]) as int) < len && marks[stack[j] as int]
    &&& forall|c: int| 0 <= c < len && marks[c] ==> stack.contains(c as usize)
}

impl WfcI {
    /// The state facts the propagator preserves: the grid keeps its shape,
    /// every domain stays a well-formed, non-empty subset of what it was
    /// when propagation started.
    pub open spec fn prop_inv(self, init: Seq<Seq<usize>>, w: int, h: int) -> bool {
        &&& self.wf()
        &&& self.etable.width as int == w
        &&& self.grid_h() == h
        &&& self.doms().len() == init.len()
        &&& w * h == init.len()
        &&& all_nonempty(self.doms())
        &&& forall|c: int|
            0 <= c < init.len() ==> (#[trigger] self.doms()[c]).len() <= init[c].len()
        &&& forall|c: int| 0 <= c < init.len() ==> subdomain_of(#[trigger] self.doms()[c], init[c])
    }

    /// Reduces the domains of the cells reachable from the just-collapsed
    /// cell `start_idx` to an arc-consistent fixed point, using a work
    /// stack with duplicate suppression; a neighbour is re-queued whenever
    /// its domain shrank at all. Fails with `Contradiction` exactly when
    /// some support-filtering step empties a domain.
    ///
    /// Domains only ever shrink, each to an order-preserving restriction of
    /// what it held, and every arc-consistent subfamily of the start state
    /// survives; in particular, propagation must succeed whenever some
    /// non-empty arc-consistent subfamily exists. On success the arcs
    /// leaving `start_idx` are consistent, and if every arc but those was
    /// consistent on entry, every arc of the grid is consistent afterwards
    /// — which pins the resulting grid uniquely (see
    /// `lemma_propagation_deterministic`).
    pub fn propagate(&mut self, ct: &ConstraintsTable, start_idx: usize) -> (r: Result<
        (),
        crate::WfcError,
    >)
        requires
            old(self).wf(),
            ct.wf(),
            ct.n_patterns == old(self).n_patterns,
            start_idx < old(self).doms().len(),
            all_nonempty(old(self).doms()),
        ensures
            final(self).n_patterns == old(self).n_patterns,
            final(self).etable.width == old(self).etable.width,
            final(self).wf(),
            final(self).doms().len() == old(self).doms().len(),
            forall|c: int|
                0 <= c < old(self).doms().len() ==> (#[trigger] final(self).doms()[c]).len() <= old(
                    self,
                ).doms()[c].len(),
            forall|c: int|
                0 <= c < old(self).doms().len() ==> subdomain_of(
                    #[trigger] final(self).doms()[c],
                    old(self).doms()[c],
                ),
            r matches Result::Ok(_) ==> all_nonempty(final(self).doms()),
            r matches Result::Err(e) ==> e == crate::WfcError::Contradiction,
            crate::ctable::all_allowed(*ct) ==> r matches Result::Ok(_),
            (exists|f: Seq<Seq<usize>>|
                arcs_ok(*ct, f, old(self).grid_w(), old(self).grid_h()) && f.len() == old(
                    self,
                ).doms().len() && family_sub(f, old(self).doms()) && all_nonempty(f))
                ==> r matches Result::Ok(_),
            r matches Result::Ok(_) ==> forall|d: Direction|
                #[trigger] has_nbr(old(self).grid_w(), old(self).grid_h(), start_idx as int, d)
                    ==> arc_ok(
                    *ct,
                    final(self).doms()[start_idx as int],
                    final(self).doms()[nbr_of(old(self).grid_w(), start_idx as int, d)],
                    d,
                ),
            forall|f: Seq<Seq<usize>>|
                #[trigger] arcs_ok(*ct, f, old(self).grid_w(), old(self).grid_h()) && f.len()
                    == old(self).doms().len() && family_sub(f, old(self).doms()) ==> family_sub(
                    f,
                    final(self).doms(),
                ),
            restrictions_of(final(self).doms(), old(self).doms()),
            (arcs_ok_unless(
                *ct,
                old(self).doms(),
                old(self).grid_w(),
                old(self).grid_h(),
                start_idx as int,
            ) && r matches Result::Ok(_)) ==> arcs_ok(
                *ct,
                final(self).doms(),
                old(self).grid_w(),
                old(self).grid_h(),
            ),
    {
        let len = self.etable.len();
        let w = self.etable.width();
        let h = self.etable.height();
        let ghost doms_init = self.doms();
        let ghost hyp = arcs_ok_unless(*ct, doms_init, w as int, h as int, start_idx as int);
        proof {
            vstd::arithmetic::div_mod::lemma_fundamental_div_mod(len as int, w as int);
            assert(w as int * (h as int) == len as int);
        }

        let mut on_stack: Vec<bool> = Vec::new();
        let mut t: usize = 0;
        while t < len
            invariant
                t <= len,
                on_stack@.len() == t,
                forall|c: int| 0 <= c < t ==> !(#[trigger] on_stack@[c]),
            decreases len - t,
        {
            on_stack.push(false);
            t = t + 1;
        }

        let mut stack: Vec<usize> = Vec::new();
        stack.push(start_idx);
        on_stack.set(start_idx, true);
        proof {
            assert(stack@.no_duplicates());
            assert forall|c: int| 0 <= c < len && on_stack@[c] implies stack@.contains(
                c as usize,
            ) by {
                assert(c == start_idx as int);
                assert(stack@[0] == start_idx);
            }
            assert(hyp ==> arcs_ok_except(*ct, self.doms(), w as int, h as int, on_stack@));
            lemma_sum_lens_nonneg(self.doms());
            lemma_restrictions_refl(doms_init);
        }

        while stack.len() > 0
            invariant
                ct.wf(),
                ct.n_patterns == self.n_patterns,
                self.prop_inv(doms_init, w as int, h as int),
                self.n_patterns == old(self).n_patterns,
                self.etable.width == old(self).etable.width,
                len == doms_init.len(),
                doms_init == doms_of(old(self).etable),
                hyp == arcs_ok_unless(
                    *ct,
                    doms_init,
                    w as int,
                    h as int,
                    start_idx as int,
                ),
                stack_inv(stack@, on_stack@, len as int),
                sum_lens(self.doms()) >= 0,
                start_idx < len,
                hyp ==> arcs_ok_except(*ct, self.doms(), w as int, h as int, on_stack@),
                !on_stack@[start_idx as int] ==> forall|d4: Direction|
                    #[trigger] has_nbr(w as int, h as int, start_idx as int, d4) ==> arc_ok(
                        *ct,
                        self.doms()[start_idx as int],
                        self.doms()[nbr_of(w as int, start_idx as int, d4)],
                        d4,
                    ),
                forall|f: Seq<Seq<usize>>|
                    #[trigger] arcs_ok(*ct, f, w as int, h as int) && f.len() == len as int
                        && family_sub(f, doms_init) ==> family_sub(f, self.doms()),
                restrictions_of(self.doms(), doms_init),
            decreases 2 * sum_lens(self.doms()) + stack@.len(),
        {
            let ghost measure0 = 2 * sum_lens(self.doms()) + stack@.len();
            let ghost stack0 = stack@;
            let i = match stack.pop() {
                Option::Some(i) => i,
                Option::None => {
                    proof {
                        assert(false);
                    }
                    0
                },
            };
            on_stack.set(i, false);
            proof {
                assert forall|c: int| 0 <= c < len && on_stack@[c] implies stack@.contains(
                    c as usize,
                ) by {
                    assert(c != i as int);
                    let j = choose|j: int| 0 <= j < stack0.len() && stack0[j] == c as usize;
                    assert(j < stack@.len());
                    assert(stack@[j] == c as usize);
                }
            }
            let ghost doms_pop = self.doms();
            let ghost m0 = 2 * sum_lens(doms_pop) + stack@.len();
            let (x, y) = self.etable.idx_to_pos(i);
            let neighbors = self.etable.neighbor_positions(x, y);
            let nn = neighbors.len();
            let mut jj: usize = 0;
            while jj < nn
                invariant
                    ct.wf(),
                    ct.n_patterns == self.n_patterns,
                    self.prop_inv(doms_init, w as int, h as int),
                    self.n_patterns == old(self).n_patterns,
                    self.etable.width == old(self).etable.width,
                    len == doms_init.len(),
                    doms_init == doms_of(old(self).etable),
                    w >= 1,
                    h as int == self.grid_h(),
                    w as int * (h as int) == len as int,
                    stack_inv(stack@, on_stack@, len as int),
                    jj <= nn,
                    i < len,
                    start_idx < len,
                    x as int == i as int / w as int,
                    y as int == i as int % w as int,
                    x as int * w as int + y as int == i as int,
                    x < h,
                    y < w,
                    !on_stack@[i as int],
                    self.doms()[i as int] == doms_pop[i as int],
                    nn == neighbors@.len(),
                    forall|j: int|
                        0 <= j < neighbors@.len() ==> {
                            let ((nx, ny), d) = #[trigger] neighbors@[j];
                            &&& (nx as int, ny as int) == step_of(d, x as int, y as int)
                            &&& nbr_in_bounds(w as int, h as int, x as int, y as int, d)
                        },
                    forall|d: Direction|
                        #[trigger] nbr_in_bounds(w as int, h as int, x as int, y as int, d)
                            ==> exists|j: int| 0 <= j < neighbors@.len() && neighbors@[j].1 == d,
                    forall|j1: int, j2: int|
                        0 <= j1 < j2 < neighbors@.len() ==> crate::direction::index_of(
                            neighbors@[j1].1,
                        ) < crate::direction::index_of(neighbors@[j2].1),
                    2 * sum_lens(self.doms()) + stack@.len() <= m0,
                    sum_lens(self.doms()) >= 0,
                    forall|f: Seq<Seq<usize>>|
                        #[trigger] arcs_ok(*ct, f, w as int, h as int) && f.len() == len as int
                            && family_sub(f, doms_init) ==> family_sub(f, self.doms()),
                    restrictions_of(self.doms(), doms_init),
                    forall|j2: int|
                        0 <= j2 < jj ==> arc_ok(
                            *ct,
                            self.doms()[i as int],
                            self.doms()[nbr_of(w as int, i as int, (#[trigger] neighbors@[j2]).1)],
                            neighbors@[j2].1,
                        ),
                    (!on_stack@[start_idx as int] && i != start_idx) ==> forall|d4: Direction|
                        #[trigger] has_nbr(w as int, h as int, start_idx as int, d4) ==> arc_ok(
                            *ct,
                            self.doms()[start_idx as int],
                            self.doms()[nbr_of(w as int, start_idx as int, d4)],
                            d4,
                        ),
                    hyp ==> forall|c: int, d: Direction|
                        0 <= c < len && #[trigger] has_nbr(w as int, h as int, c, d)
                            && !on_stack@[c] && c != i as int ==> arc_ok(
                            *ct,
                            self.doms()[c],
                            self.doms()[nbr_of(w as int, c, d)],
                            d,
                        ),
                decreases nn - jj,
            {
                let ((nx, ny), d) = neighbors[jj];
                proof {
                    lemma_pos_index_bound(nx as int, ny as int, w as int, h as int);
                }
                let nidx = nx * w + ny;
                let ghost nb = nbr_of(w as int, i as int, d);
                proof {
                    assert(nb == nidx as int);
                    lemma_nbr_in_grid(w as int, h as int, i as int, d);
                }
                let src = self.etable.at(i);
                let dst = self.etable.at(nidx);
                let dlen = dst.len();
                let ghost prev = self.doms();
                let ghost pred = |q: usize| has_support(*ct, prev[i as int], q, d);
                proof {
                    assert(src@ == prev[i as int]);
                    assert(dst@ == prev[nidx as int]);
                    assert(domain_wf(prev[i as int], ct.n_patterns as int));
                    assert(domain_wf(prev[nidx as int], ct.n_patterns as int));
                }
                let nv = revise(ct, src, dst, d);
                let nvlen = nv.len();
                proof {
                    assert(nv@ == prev[nidx as int].filter(pred));
                    prev[nidx as int].lemma_filter_len(pred);
                    lemma_filter_subset(prev[nidx as int], pred);
                    lemma_filter_no_dup(prev[nidx as int], pred);
                }
                if nvlen == 0 {
                    proof {
                        if exists|f: Seq<Seq<usize>>|
                            arcs_ok(*ct, f, w as int, h as int) && f.len() == len as int
                                && family_sub(f, doms_init) && all_nonempty(f) {
                            let f = choose|f: Seq<Seq<usize>>|
                                arcs_ok(*ct, f, w as int, h as int) && f.len() == len as int
                                    && family_sub(f, doms_init) && all_nonempty(f);
                            assert(family_sub(f, prev));
                            let q = f[nb][0];
                            assert(has_nbr(w as int, h as int, i as int, d));
                            assert(arc_ok(*ct, f[i as int], f[nb], d));
                            assert(has_support(*ct, f[i as int], q, d));
                            let jp = choose|jp: int|
                                0 <= jp < f[i as int].len() && ct.allows_spec(
                                    f[i as int][jp] as int,
                                    q as int,
                                    d,
                                );
                            let fi = f[i as int];
                            assert(subdomain_of(fi, prev[i as int]));
                            assert(prev[i as int].contains(fi[jp]));
                            let ip = choose|ip: int|
                                0 <= ip < prev[i as int].len() && prev[i as int][ip] == fi[jp];
                            assert(ct.allows_spec(prev[i as int][ip] as int, q as int, d));
                            assert(pred(q));
                            assert(subdomain_of(f[nb], prev[nb]));
                            assert(prev[nb].contains(q));
                            let qi = choose|qi: int| 0 <= qi < prev[nb].len() && prev[nb][qi] == q;
                            prev[nb].lemma_filter_contains(pred, qi);
                            assert(prev[nb].filter(pred).contains(q));
                            assert(false);
                        }
                        if crate::ctable::all_allowed(*ct) {
                            assert forall|q: int| 0 <= q < prev[nb].len() implies pred(
                                #[trigger] prev[nb][q],
                            ) by {
                                assert(prev[i as int][0] < ct.n_patterns);
                                assert(prev[nb][q] < ct.n_patterns);
                                assert(ct.allows_spec(
                                    prev[i as int][0] as int,
                                    prev[nb][q] as int,
                                    d,
                                ));
                            }
                            lemma_filter_all(prev[nb], pred);
                        }
                    }
                    return Result::Err(crate::WfcError::Contradiction);
                }
                let shrank = nvlen != dlen;
                self.etable.set(nidx, nv);
                proof {
                    assert(self.doms() =~= prev.update(nb, prev[nb].filter(pred)));
                    lemma_sum_lens_update(prev, nb, prev[nb].filter(pred));
                }
                if shrank {
                    let marked = on_stack[nidx];
                    let ghost stack1 = stack@;
                    if !marked {
                        stack.push(nidx);
                        on_stack.set(nidx, true);
                        proof {
                            assert forall|c: int|
                                0 <= c < len && on_stack@[c] implies stack@.contains(
                                c as usize,
                            ) by {
                                if c == nb {
                                    assert(stack@[stack@.len() - 1] == nidx);
                                } else {
                                    let j = choose|j: int|
                                        0 <= j < stack1.len() && stack1[j] == c as usize;
                                    assert(stack@[j] == c as usize);
                                }
                            }
                            assert(stack_inv(stack@, on_stack@, len as int));
                        }
                    }
                    proof {
                        assert(on_stack@[nb]);
                    }
                } else {
                    proof {
                        lemma_filter_full(prev[nb], pred);
                        assert(self.doms() =~= prev);
                    }
                }
                proof {
                    let cur = self.doms();
                    // Domains stay well-formed subsets of what they were.
                    assert forall|c: int| 0 <= c < len implies subdomain_of(
                        #[trigger] cur[c],
                        doms_init[c],
                    ) && cur[c].len() <= doms_init[c].len() && domain_wf(
                        cur[c],
                        self.n_patterns as int,
                    ) && cur[c].len() >= 1 by {
                        if c == nb {
                            assert(cur[c] == prev[nb].filter(pred));
                            assert forall|q: int|
                                0 <= q < cur[c].len() implies doms_init[c].contains(
                                #[trigger] cur[c][q],
                            ) && cur[c][q] < self.n_patterns by {
                                assert(prev[nb].contains(cur[c][q]));
                                let jx = choose|jx: int|
                                    0 <= jx < prev[nb].len() && prev[nb][jx] == cur[c][q];
                                assert(subdomain_of(prev[nb], doms_init[nb]));
                                assert(doms_init[nb].contains(prev[nb][jx]));
                                assert(domain_wf(prev[nb], self.n_patterns as int));
                            }
                        } else {
                            assert(cur[c] == prev[c]);
                            assert(subdomain_of(prev[c], doms_init[c]));
                            assert(domain_wf(prev[c], self.n_patterns as int));
                        }
                    }
                    // Arcs already made consistent from cell `i` stay so.
                    assert forall|j2: int| 0 <= j2 < jj + 1 implies arc_ok(
                            *ct,
                            cur[i as int],
                            cur[nbr_of(w as int, i as int, (#[trigger] neighbors@[j2]).1)],
                            neighbors@[j2].1,
                        ) by {
                        let d2 = neighbors@[j2].1;
                        let nb2 = nbr_of(w as int, i as int, d2);
                        assert(has_nbr(w as int, h as int, i as int, d2));
                        lemma_nbr_in_grid(w as int, h as int, i as int, d2);
                        assert(cur[i as int] == prev[i as int]);
                        if j2 == jj {
                            assert(cur[nb] == prev[nb].filter(pred));
                            assert forall|q: int| 0 <= q < cur[nb].len() implies has_support(
                                *ct,
                                cur[i as int],
                                #[trigger] cur[nb][q],
                                d,
                            ) by {
                                prev[nb].lemma_filter_pred(pred, q);
                            }
                        } else {
                            if d2 == d {
                                assert(crate::direction::index_of(neighbors@[j2].1)
                                    < crate::direction::index_of(neighbors@[jj as int].1));
                            } else {
                                lemma_nbrs_distinct(w as int, h as int, i as int, d2, d);
                                assert(cur[nb2] == prev[nb2]);
                            }
                        }
                    }
                    // The arcs out of the start cell, once consistent, stay
                    // so while the start cell is off the stack.
                    if !on_stack@[start_idx as int] && i != start_idx {
                        assert forall|d4: Direction|
                            #[trigger] has_nbr(w as int, h as int, start_idx as int, d4)
                                implies arc_ok(
                            *ct,
                            cur[start_idx as int],
                            cur[nbr_of(w as int, start_idx as int, d4)],
                            d4,
                        ) by {
                            lemma_nbr_in_grid(w as int, h as int, start_idx as int, d4);
                            let tgt = nbr_of(w as int, start_idx as int, d4);
                            assert(start_idx as int != nb || !shrank);
                            assert(cur[start_idx as int] == prev[start_idx as int]);
                            assert(arc_ok(*ct, prev[start_idx as int], prev[tgt], d4));
                            if tgt == nb {
                                assert forall|q: int|
                                    0 <= q < cur[tgt].len() implies has_support(
                                    *ct,
                                    cur[start_idx as int],
                                    #[trigger] cur[tgt][q],
                                    d4,
                                ) by {
                                    assert(prev[nb].contains(cur[tgt][q]));
                                    let jx = choose|jx: int|
                                        0 <= jx < prev[nb].len() && prev[nb][jx] == cur[tgt][q];
                                    assert(has_support(
                                        *ct,
                                        prev[start_idx as int],
                                        prev[nb][jx],
                                        d4,
                                    ));
                                }
                            } else {
                                assert(cur[tgt] == prev[tgt]);
                            }
                        }
                    }
                    if hyp {
                        // Arcs out of unmarked cells other than `i` stay consistent.
                        assert forall|c: int, d3: Direction|
                            0 <= c < len && #[trigger] has_nbr(w as int, h as int, c, d3)
                                && !on_stack@[c] && c != i as int implies arc_ok(
                            *ct,
                            cur[c],
                            cur[nbr_of(w as int, c, d3)],
                            d3,
                        ) by {
                            lemma_nbr_in_grid(w as int, h as int, c, d3);
                            let tgt = nbr_of(w as int, c, d3);
                            assert(c != nb || !shrank);
                            assert(cur[c] == prev[c]);
                            assert(arc_ok(*ct, prev[c], prev[tgt], d3));
                            if tgt == nb {
                                assert forall|q: int| 0 <= q < cur[tgt].len() implies has_support(
                                    *ct,
                                    cur[c],
                                    #[trigger] cur[tgt][q],
                                    d3,
                                ) by {
                                    assert(prev[nb].contains(cur[tgt][q]));
                                    let jx = choose|jx: int|
                                        0 <= jx < prev[nb].len() && prev[nb][jx] == cur[tgt][q];
                                    assert(has_support(*ct, prev[c], prev[nb][jx], d3));
                                }
                            } else {
                                assert(cur[tgt] == prev[tgt]);
                            }
                        }
                    }
                    // The new state still contains every arc-consistent
                    // subfamily of the initial one: a supported candidate
                    // of such a family survives the pruning.
                    assert forall|f: Seq<Seq<usize>>|
                        #[trigger] arcs_ok(*ct, f, w as int, h as int) && f.len() == len as int
                            && family_sub(f, doms_init) implies family_sub(f, cur) by {
                        assert(family_sub(f, prev));
                        assert forall|c: int| 0 <= c < f.len() implies subdomain_of(
                            #[trigger] f[c],
                            cur[c],
                        ) by {
                            if c == nb {
                                assert(has_nbr(w as int, h as int, i as int, d));
                                assert(arc_ok(*ct, f[i as int], f[nb], d));
                                assert forall|j: int|
                                    0 <= j < f[nb].len() implies cur[nb].contains(
                                    #[trigger] f[nb][j],
                                ) by {
                                    let q = f[nb][j];
                                    assert(has_support(*ct, f[i as int], q, d));
                                    let jp = choose|jp: int|
                                        0 <= jp < f[i as int].len() && ct.allows_spec(
                                            f[i as int][jp] as int,
                                            q as int,
                                            d,
                                        );
                                    assert(subdomain_of(f[i as int], prev[i as int]));
                                    assert(prev[i as int].contains(f[i as int][jp]));
                                    let fi = f[i as int];
                                    let ip = choose|ip: int|
                                        0 <= ip < prev[i as int].len() && prev[i as int][ip]
                                            == fi[jp];
                                    assert(ct.allows_spec(prev[i as int][ip] as int, q as int, d));
                                    assert(pred(q));
                                    assert(subdomain_of(f[nb], prev[nb]));
                                    assert(prev[nb].contains(q));
                                    let qi = choose|qi: int|
                                        0 <= qi < prev[nb].len() && prev[nb][qi] == q;
                                    prev[nb].lemma_filter_contains(pred, qi);
                                    assert(cur[nb] == prev[nb].filter(pred));
                                }
                            } else {
                                assert(cur[c] == prev[c]);
                                assert(subdomain_of(f[c], prev[c]));
                            }
                        }
                    }
                    // Each domain stays an order-preserving filtrate of its
                    // initial value.
                    lemma_restrictions_step(doms_init, prev, cur, nb, pred);
                    lemma_sum_lens_nonneg(cur);
                }
                jj = jj + 1;
            }
            proof {
                let cur = self.doms();
                if !on_stack@[start_idx as int] {
                    assert forall|d: Direction|
                        #[trigger] has_nbr(w as int, h as int, start_idx as int, d) implies arc_ok(
                        *ct,
                        cur[start_idx as int],
                        cur[nbr_of(w as int, start_idx as int, d)],
                        d,
                    ) by {
                        if i as int == start_idx as int {
                            assert(nbr_in_bounds(w as int, h as int, x as int, y as int, d));
                            let j2 = choose|j2: int|
                                0 <= j2 < neighbors@.len() && neighbors@[j2].1 == d;
                            assert(arc_ok(
                                *ct,
                                cur[i as int],
                                cur[nbr_of(w as int, i as int, neighbors@[j2].1)],
                                neighbors@[j2].1,
                            ));
                        }
                    }
                }
                if hyp {
                    assert forall|c: int, d: Direction|
                        0 <= c < len && #[trigger] has_nbr(w as int, h as int, c, d)
                            && !on_stack@[c] implies arc_ok(
                        *ct,
                        cur[c],
                        cur[nbr_of(w as int, c, d)],
                        d,
                    ) by {
                        if c == i as int {
                            assert(nbr_in_bounds(w as int, h as int, x as int, y as int, d));
                            let j2 = choose|j2: int|
                                0 <= j2 < neighbors@.len() && neighbors@[j2].1 == d;
                            assert(arc_ok(
                                *ct,
                                cur[i as int],
                                cur[nbr_of(w as int, i as int, neighbors@[j2].1)],
                                neighbors@[j2].1,
                            ));
                        }
                    }
                }
                assert(2 * sum_lens(cur) + stack@.len() <= m0);
                assert(m0 < measure0);
            }
        }
        proof {
            assert(!on_stack@[start_idx as int]) by {
                if on_stack@[start_idx as int] {
                    assert(stack@.contains(start_idx));
                }
            }
            if hyp {
                assert forall|c: int, d: Direction|
                    0 <= c < len && #[trigger] has_nbr(w as int, h as int, c, d) implies arc_ok(
                    *ct,
                    self.doms()[c],
                    self.doms()[nbr_of(w as int, c, d)],
                    d,
                ) by {
                    assert(!on_stack@[c]) by {
                        if on_stack@[c] {
                            assert(stack@.contains(c as usize));
                        }
                    }
                }
            }
        }
        Result::Ok(())
    }
}

/// Pointwise-smaller domains have a smaller total.
pub proof fn lemma_sum_lens_pointwise_le(a: Seq<Seq<usize>>, b: Seq<Seq<usize>>)
    requires
        a.len() == b.len(),
        forall|c: int| 0 <= c < a.len() ==> (#[trigger] a[c]).len() <= b[c].len(),
    ensures
        sum_lens(a) <= sum_lens(b),
    decreases a.len(),
{
    if a.len() > 0 {
        assert(forall|c: int|
            0 <= c < a.drop_first().len() ==> (#[trigger] a.drop_first()[c]).len()
                <= b.drop_first()[c].len());
        lemma_sum_lens_pointwise_le(a.drop_first(), b.drop_first());
    }
}

impl WfcI {
    /// Runs observe/propagate cycles until every cell is collapsed or a
    /// contradiction aborts the run.
    ///
    /// Domains only ever shrink, so the loop terminates. On success every
    /// cell holds exactly one pattern, and if every arc of the grid was
    /// consistent on entry, then every pair of orthogonally adjacent cells
    /// of the result is allowed by the constraints table.
    pub fn solve(&mut self, ct: &ConstraintsTable, rng: &mut RandomSource) -> (r: Result<
        (),
        crate::WfcError,
    >)
        requires
            old(self).wf(),
            ct.wf(),
            ct.n_patterns == old(self).n_patterns,
            all_nonempty(old(self).doms()),
        ensures
            final(self).n_patterns == old(self).n_patterns,
            final(self).etable.width == old(self).etable.width,
            final(self).wf(),
            final(self).doms().len() == old(self).doms().len(),
            forall|c: int|
                0 <= c < old(self).doms().len() ==> (#[trigger] final(self).doms()[c]).len() <= old(
                    self,
                ).doms()[c].len(),
            forall|c: int|
                0 <= c < old(self).doms().len() ==> subdomain_of(
                    #[trigger] final(self).doms()[c],
                    old(self).doms()[c],
                ),
            r matches Result::Ok(_) ==> all_singleton(final(self).doms()),
            r matches Result::Err(e) ==> e == crate::WfcError::Contradiction,
            all_singleton(old(self).doms()) ==> r matches Result::Ok(_),
            crate::ctable::all_allowed(*ct) ==> r matches Result::Ok(_),
            (arcs_ok(*ct, old(self).doms(), old(self).grid_w(), old(self).grid_h()) && r matches Result::Ok(_))
                ==> arcs_ok(*ct, final(self).doms(), old(self).grid_w(), old(self).grid_h()),
            (arcs_ok(*ct, old(self).doms(), old(self).grid_w(), old(self).grid_h()) && r matches Result::Ok(_))
                ==> forall|c: int, d: Direction|
                    0 <= c < final(self).doms().len() && #[trigger] has_nbr(
                        old(self).grid_w(),
                        old(self).grid_h(),
                        c,
                        d,
                    ) ==> ct.allows_spec(
                        final(self).doms()[c][0] as int,
                        final(self).doms()[nbr_of(old(self).grid_w(), c, d)][0] as int,
                        d,
                    ),
    {
        let ghost doms0 = self.doms();
        let ghost w = old(self).grid_w();
        let ghost h = old(self).grid_h();
        let ghost hyp = arcs_ok(*ct, doms0, w, h);
        loop
            invariant
                ct.wf(),
                ct.n_patterns == self.n_patterns,
                self.wf(),
                self.n_patterns == old(self).n_patterns,
                self.etable.width == old(self).etable.width,
                self.doms().len() == doms0.len(),
                doms0 == doms_of(old(self).etable),
                w == old(self).grid_w(),
                h == old(self).grid_h(),
                w == self.grid_w(),
                h == self.grid_h(),
                hyp == arcs_ok(*ct, doms0, w, h),
                all_nonempty(self.doms()),
                forall|c: int|
                    0 <= c < doms0.len() ==> (#[trigger] self.doms()[c]).len() <= doms0[c].len(),
                forall|c: int|
                    0 <= c < doms0.len() ==> subdomain_of(#[trigger] self.doms()[c], doms0[c]),
                hyp ==> arcs_ok(*ct, self.doms(), w, h),
                all_singleton(doms0) ==> all_singleton(self.doms()),
            decreases sum_lens(self.doms()),
        {
            let ghost pre = self.doms();
            let o = self.observe(rng);
            match o {
                Option::None => {
                    proof {
                        if hyp {
                            assert forall|c: int, d: Direction|
                                0 <= c < self.doms().len() && #[trigger] has_nbr(w, h, c, d)
                                    implies ct.allows_spec(
                                self.doms()[c][0] as int,
                                self.doms()[nbr_of(w, c, d)][0] as int,
                                d,
                            ) by {
                                lemma_nbr_in_grid(w, h, c, d);
                                let tgt = nbr_of(w, c, d);
                                assert(arc_ok(*ct, self.doms()[c], self.doms()[tgt], d));
                                assert(has_support(*ct, self.doms()[c], self.doms()[tgt][0], d));
                                let sx = choose|sx: int|
                                    0 <= sx < self.doms()[c].len() && ct.allows_spec(
                                        self.doms()[c][sx] as int,
                                        self.doms()[tgt][0] as int,
                                        d,
                                    );
                                assert(sx == 0);
                            }
                        }
                    }
                    return Result::Ok(());
                },
                Option::Some(idx) => {
                    let ghost mid = self.doms();
                    proof {
                        let p = choose|p: usize|
                            pre[idx as int].contains(p) && mid == pre.update(
                                idx as int,
                                seq![p],
                            );
                        if hyp {
                            assert forall|c: int, d: Direction|
                                0 <= c < mid.len() && #[trigger] has_nbr(w, h, c, d) && c
                                    != idx as int implies arc_ok(
                                *ct,
                                mid[c],
                                mid[nbr_of(w, c, d)],
                                d,
                            ) by {
                                lemma_nbr_in_grid(w, h, c, d);
                                let tgt = nbr_of(w, c, d);
                                assert(mid[c] == pre[c]);
                                assert(arc_ok(*ct, pre[c], pre[tgt], d));
                                if tgt == idx as int {
                                    assert forall|j: int| 0 <= j < mid[tgt].len() implies
                                        has_support(*ct, mid[c], #[trigger] mid[tgt][j], d) by {
                                        assert(mid[tgt][j] == p);
                                        let jx = choose|jx: int|
                                            0 <= jx < pre[idx as int].len() && pre[idx as int][jx]
                                                == p;
                                        assert(has_support(*ct, pre[c], pre[idx as int][jx], d));
                                    }
                                }
                            }
                        }
                    }
                    let pr = self.propagate(ct, idx);
                    match pr {
                        Result::Err(e) => {
                            proof {
                                // Under full collapse the observer cannot
                                // return a cell, so this path keeps every
                                // promised clause vacuously or directly.
                                assert forall|c: int| 0 <= c < doms0.len() implies subdomain_of(
                                    #[trigger] self.doms()[c],
                                    doms0[c],
                                ) && self.doms()[c].len() <= doms0[c].len() by {
                                    lemma_solve_step_subset(self.doms(), mid, pre, doms0, c);
                                }
                                if all_singleton(doms0) {
                                    assert(pre[idx as int].len() >= 2);
                                    assert(pre[idx as int].len() <= doms0[idx as int].len());
                                }
                            }
                            return Result::Err(e);
                        },
                        Result::Ok(_) => {
                            proof {
                                assert forall|c: int| 0 <= c < doms0.len() implies subdomain_of(
                                    #[trigger] self.doms()[c],
                                    doms0[c],
                                ) && self.doms()[c].len() <= doms0[c].len() by {
                                    lemma_solve_step_subset(self.doms(), mid, pre, doms0, c);
                                }
                                if all_singleton(doms0) {
                                    assert(pre[idx as int].len() >= 2);
                                    assert(pre[idx as int].len() <= doms0[idx as int].len());
                                }
                                assert(sum_lens(mid) < sum_lens(pre));
                                lemma_sum_lens_pointwise_le(self.doms(), mid);
                                lemma_sum_lens_nonneg(self.doms());
                                assert(sum_lens(self.doms()) < sum_lens(pre));
                            }
                        },
                    }
                },
            }
        }
    }
}

/// One observe/propagate step keeps every domain inside what it held at the
/// start of the run.
proof fn lemma_solve_step_subset(
    cur: Seq<Seq<usize>>,
    mid: Seq<Seq<usize>>,
    pre: Seq<Seq<usize>>,
    init: Seq<Seq<usize>>,
    c: int,
)
    requires
        cur.len() == mid.len() == pre.len() == init.len(),
        0 <= c < cur.len(),
        subdomain_of(cur[c], mid[c]),
        cur[c].len() <= mid[c].len(),
        exists|idx: int, p: usize|
            0 <= idx < pre.len() && pre[idx].contains(p) && mid == pre.update(idx, seq![p]),
        subdomain_of(pre[c], init[c]),
        pre[c].len() <= init[c].len(),
    ensures
        subdomain_of(cur[c], init[c]),
        cur[c].len() <= init[c].len(),
{
    let (idx, p) = choose|idx: int, p: usize|
        0 <= idx < pre.len() && pre[idx].contains(p) && mid == pre.update(idx, seq![p]);
    assert(subdomain_of(mid[c], pre[c])) by {
        if c == idx {
            assert forall|j: int| 0 <= j < mid[c].len() implies pre[c].contains(
                #[trigger] mid[c][j],
            ) by {
                assert(mid[c][j] == p);
            }
        }
    }
    assert(mid[c].len() <= pre[c].len()) by {
        if c == idx {
            assert(pre[idx].len() >= 1);
        }
    }
    assert forall|j: int| 0 <= j < cur[c].len() implies init[c].contains(
        #[trigger] cur[c][j],
    ) by {
        assert(mid[c].contains(cur[c][j]));
        let j2 = choose|j2: int| 0 <= j2 < mid[c].len() && mid[c][j2] == cur[c][j];
        assert(pre[c].contains(mid[c][j2]));
        let j3 = choose|j3: int| 0 <= j3 < pre[c].len() && pre[c][j3] == mid[c][j2];
        assert(init[c].contains(pre[c][j3]));
    }
}

/// The domain holding every pattern id below `p`.
pub open spec fn full_domain(p: int) -> Seq<usize> {
    Seq::new(p as nat, |i: int| i as usize)
}

/// The fully open grid: every one of the `n` cells may still become any of
/// the `p` patterns.
pub open spec fn full_doms(p: int, n: int) -> Seq<Seq<usize>> {
    Seq::new(n as nat, |c: int| full_domain(p))
}

/// A fully collapsed grid is sound: every pair of orthogonally adjacent
/// cells is allowed by the constraints table.
pub open spec fn sound_assignment(
    ct: ConstraintsTable,
    asn: Seq<usize>,
    w: int,
    h: int,
) -> bool {
    forall|c: int, d: Direction|
        0 <= c < asn.len() && #[trigger] has_nbr(w, h, c, d) ==> ct.allows_spec(
            asn[c] as int,
            asn[nbr_of(w, c, d)] as int,
            d,
        )
}

/// The wave function collapse solver: a set of patterns together with the
/// adjacency constraints computed from their overlaps.
pub struct Wfc {
    pub patterns: Vec<Pattern>,
    pub ctable: ConstraintsTable,
}

impl Wfc {
    /// The patterns have dense ids and one common size, and the table
    /// answers exactly the overlap predicate on them.
    pub open spec fn wf(self) -> bool {
        &&& self.patterns@.len() >= 1
        &&& forall|i: int|
            0 <= i < self.patterns@.len() ==> (#[trigger] self.patterns@[i]).id == i
                && self.patterns@[i].wf() && self.patterns@[i].size == self.patterns@[0].size
        &&& self.ctable.wf()
        &&& self.ctable.matches(self.patterns@)
    }

    /// Computes the full constraints table: for every ordered pair of
    /// patterns and every direction, whether the second may sit next to the
    /// first in that direction, decided by comparing their overlap strips.
    pub fn build_constraints(patterns: &Vec<Pattern>) -> (r: ConstraintsTable)
        requires
            forall|i: int| 0 <= i < patterns@.len() ==> (#[trigger] patterns@[i]).wf(),
            patterns@.len() * patterns@.len() <= usize::MAX,
        ensures
            r.wf(),
            r.matches(patterns@),
            forall|a: int, b: int|
                0 <= a < patterns@.len() && 0 <= b < patterns@.len() ==> (#[trigger] r.masks@[a
                    * patterns@.len() + b]) == crate::ctable::mask_of(
                    overlaps_spec(patterns@[a], patterns@[b], Direction::Up),
                    overlaps_spec(patterns@[a], patterns@[b], Direction::Right),
                    overlaps_spec(patterns@[a], patterns@[b], Direction::Down),
                    overlaps_spec(patterns@[a], patterns@[b], Direction::Left),
                ),
    {
        let n = patterns.len();
        let mut masks: Vec<u8> = Vec::new();
        let mut a: usize = 0;
        while a < n
            invariant
                n == patterns@.len(),
                forall|i: int| 0 <= i < patterns@.len() ==> (#[trigger] patterns@[i]).wf(),
                n * n <= usize::MAX,
                a <= n,
                masks@.len() == a * n,
                a * n <= n * n,
                forall|i: int, d: Direction|
                    0 <= i < masks@.len() ==> #[trigger] crate::ctable::mask_allows(masks@[i], d)
                        == overlaps_spec(
                        patterns@[i / (n as int)],
                        patterns@[i % (n as int)],
                        d,
                    ),
                forall|i: int|
                    0 <= i < masks@.len() ==> (#[trigger] masks@[i]) == crate::ctable::mask_of(
                        overlaps_spec(
                            patterns@[i / (n as int)],
                            patterns@[i % (n as int)],
                            Direction::Up,
                        ),
                        overlaps_spec(
                            patterns@[i / (n as int)],
                            patterns@[i % (n as int)],
                            Direction::Right,
                        ),
                        overlaps_spec(
                            patterns@[i / (n as int)],
                            patterns@[i % (n as int)],
                            Direction::Down,
                        ),
                        overlaps_spec(
                            patterns@[i / (n as int)],
                            patterns@[i % (n as int)],
                            Direction::Left,
                        ),
                    ),
            decreases n - a,
        {
            proof {
                assert((a + 1) * n <= n * n && a * n + n == (a + 1) * n) by (nonlinear_arith)
                    requires
                        a < n,
                ;
            }
            let mut b: usize = 0;
            while b < n
                invariant
                    n == patterns@.len(),
                    forall|i: int| 0 <= i < patterns@.len() ==> (#[trigger] patterns@[i]).wf(),
                    n * n <= usize::MAX,
                    a < n,
                    b <= n,
                    a * n + n == (a + 1) * n,
                    (a + 1) * n <= n * n,
                    masks@.len() == a * n + b,
                    forall|i: int, d: Direction|
                        0 <= i < masks@.len() ==> #[trigger] crate::ctable::mask_allows(
                            masks@[i],
                            d,
                        ) == overlaps_spec(
                            patterns@[i / (n as int)],
                            patterns@[i % (n as int)],
                            d,
                        ),
                    forall|i: int|
                        0 <= i < masks@.len() ==> (#[trigger] masks@[i]) == crate::ctable::mask_of(
                            overlaps_spec(
                                patterns@[i / (n as int)],
                                patterns@[i % (n as int)],
                                Direction::Up,
                                ),
                            overlaps_spec(
                                patterns@[i / (n as int)],
                                patterns@[i % (n as int)],
                                Direction::Right,
                                ),
                            overlaps_spec(
                                patterns@[i / (n as int)],
                                patterns@[i % (n as int)],
                                Direction::Down,
                                ),
                            overlaps_spec(
                                patterns@[i / (n as int)],
                                patterns@[i % (n as int)],
                                Direction::Left,
                                ),
                        ),
                decreases n - b,
            {
                let pa = &patterns[a];
                let pb = &patterns[b];
                let m = crate::ctable::pack_mask(
                    pa.overlaps(pb, &Direction::Up),
                    pa.overlaps(pb, &Direction::Right),
                    pa.overlaps(pb, &Direction::Down),
                    pa.overlaps(pb, &Direction::Left),
                );
                masks.push(m);
                proof {
                    let i = a as int * n as int + b as int;
                    vstd::arithmetic::div_mod::lemma_fundamental_div_mod_converse(
                        i,
                        n as int,
                        a as int,
                        b as int,
                    );
                    assert forall|d: Direction| #[trigger]
                        crate::ctable::mask_allows(masks@[i], d) == overlaps_spec(
                        patterns@[i / (n as int)],
                        patterns@[i % (n as int)],
                        d,
                    ) by {
                        match d {
                            Direction::Up => {},
                            Direction::Right => {},
                            Direction::Down => {},
                            Direction::Left => {},
                        }
                    }
                }
                b = b + 1;
            }
            a = a + 1;
        }
        let r = ConstraintsTable::new(masks, n);
        proof {
            assert forall|pa: int, pb: int, d: Direction|
                0 <= pa < patterns@.len() && 0 <= pb < patterns@.len() implies #[trigger] r
                .allows_spec(pa, pb, d) == overlaps_spec(patterns@[pa], patterns@[pb], d) by {
                lemma_pos_index_bound(pa, pb, n as int, n as int);
                vstd::arithmetic::div_mod::lemma_fundamental_div_mod_converse(
                    pa * n as int + pb,
                    n as int,
                    pa,
                    pb,
                );
            }
            assert forall|pa: int, pb: int|
                0 <= pa < patterns@.len() && 0 <= pb < patterns@.len() implies (#[trigger] r.masks@[
                pa * patterns@.len() + pb]) == crate::ctable::mask_of(
                overlaps_spec(patterns@[pa], patterns@[pb], Direction::Up),
                overlaps_spec(patterns@[pa], patterns@[pb], Direction::Right),
                overlaps_spec(patterns@[pa], patterns@[pb], Direction::Down),
                overlaps_spec(patterns@[pa], patterns@[pb], Direction::Left),
            ) by {
                lemma_pos_index_bound(pa, pb, n as int, n as int);
                vstd::arithmetic::div_mod::lemma_fundamental_div_mod_converse(
                    pa * n as int + pb,
                    n as int,
                    pa,
                    pb,
                );
            }
        }
        r
    }

    /// Builds a solver over the given pattern set, computing its adjacency
    /// constraints from the patterns' overlaps.
    pub fn new(patterns: Vec<Pattern>) -> (r: Wfc)
        requires
            patterns@.len() >= 1,
            forall|i: int|
                0 <= i < patterns@.len() ==> (#[trigger] patterns@[i]).id == i
                    && patterns@[i].wf() && patterns@[i].size == patterns@[0].size,
            patterns@.len() * patterns@.len() <= usize::MAX,
        ensures
            r.wf(),
            r.patterns == patterns,
    {
        let ctable = Wfc::build_constraints(&patterns);
        Wfc { patterns, ctable }
    }

    /// The collapsed assignment `asn` explains the raster `img`: one
    /// pattern id per cell, each cell painted with the first pixel of its
    /// pattern, and — whenever the fully open grid was arc-consistent —
    /// every pair of adjacent cells allowed by the constraints table.
    pub open spec fn generated_from(
        self,
        img: Texture,
        asn: Seq<usize>,
        width: int,
        height: int,
    ) -> bool {
        &&& asn.len() == width * height
        &&& (forall|c: int| 0 <= c < asn.len() ==> (#[trigger] asn[c]) < self.patterns@.len())
        &&& (forall|x: int, y: int|
            0 <= x < height && 0 <= y < width ==> #[trigger] img.color_at(x, y)
                == self.patterns@[asn[x * width + y] as int].pixels@[0])
        &&& (arcs_ok(
            self.ctable,
            full_doms(self.patterns@.len() as int, width * height),
            width,
            height,
        ) ==> sound_assignment(self.ctable, asn, width, height))
    }

    /// Synthesizes a `width` by `height` raster: every cell starts with the
    /// full pattern set, observe/propagate cycles run until the grid is
    /// collapsed, and each cell is rendered as the first pixel of its sole
    /// remaining pattern.
    ///
    /// On success the output is a fully collapsed assignment of patterns to
    /// cells; when the full grid was arc-consistent to begin with, that
    /// assignment respects the constraints table across every pair of
    /// adjacent cells. With a single pattern no observation is ever needed,
    /// so the call cannot fail.
    pub fn generate(&self, width: usize, height: usize, rng: &mut RandomSource) -> (r: Result<
        Texture,
        crate::WfcError,
    >)
        requires
            self.wf(),
            width >= 1,
            height >= 1,
            width * height <= usize::MAX,
        ensures
            r matches Result::Ok(img) ==> {
                &&& img.wf()
                &&& img.width == width
                &&& img.height == height
                &&& exists|asn: Seq<usize>|
                    self.generated_from(img, asn, width as int, height as int)
            },
            self.patterns@.len() == 1 ==> r matches Result::Ok(_),
            crate::ctable::all_allowed(self.ctable) ==> r matches Result::Ok(_),
            r matches Result::Err(e) ==> e == crate::WfcError::Contradiction,
    {
        let p_count = self.patterns.len();
        let n = width * height;
        let mut cells: Vec<Vec<usize>> = Vec::new();
        let mut c: usize = 0;
        while c < n
            invariant
                c <= n,
                cells@.len() == c,
                forall|i: int| 0 <= i < c ==> (#[trigger] cells@[i])@ == full_domain(
                    p_count as int,
                ),
            decreases n - c,
        {
            let mut cell: Vec<usize> = Vec::new();
            let mut q: usize = 0;
            while q < p_count
                invariant
                    q <= p_count,
                    cell@.len() == q,
                    forall|i: int| 0 <= i < q ==> (#[trigger] cell@[i]) == i as usize,
                decreases p_count - q,
            {
                cell.push(q);
                q = q + 1;
            }
            proof {
                assert(cell@ =~= full_domain(p_count as int));
            }
            cells.push(cell);
            c = c + 1;
        }
        proof {
            vstd::arithmetic::div_mod::lemma_mod_multiples_basic(height as int, width as int);
            assert(width as int * (height as int) == height as int * (width as int))
                by (nonlinear_arith);
        }
        let etable = Table::new(cells, width);
        proof {
            assert forall|cc: int| 0 <= cc < doms_of(etable).len() implies domain_wf(
                #[trigger] doms_of(etable)[cc],
                p_count as int,
            ) by {
                assert(doms_of(etable)[cc] == full_domain(p_count as int));
                assert forall|i1: int, j1: int|
                    0 <= i1 < p_count && 0 <= j1 < p_count && i1 != j1 implies full_domain(
                    p_count as int,
                )[i1] != full_domain(p_count as int)[j1] by {}
            }
        }
        let mut solver = WfcI::new(etable, p_count);
        let ghost init = solver.doms();
        proof {
            assert(init =~= full_doms(p_count as int, n as int));
            assert(all_nonempty(init));
            vstd::arithmetic::div_mod::lemma_fundamental_div_mod(n as int, width as int);
            assert(solver.grid_w() == width as int);
            assert(solver.grid_h() == height as int) by {
                assert(width as int * (height as int) == n as int);
                assert(n as int % width as int == 0);
                vstd::arithmetic::div_mod::lemma_fundamental_div_mod_converse(
                    n as int,
                    width as int,
                    height as int,
                    0,
                );
            }
        }
        let sr = solver.solve(&self.ctable, rng);
        match sr {
            Result::Err(e) => {
                proof {
                    if self.patterns@.len() == 1 {
                        assert(all_singleton(init));
                    }
                }
                Result::Err(e)
            },
            Result::Ok(_) => {
                let ghost fin = solver.doms();
                let ghost asn = Seq::new(fin.len(), |cc: int| fin[cc][0]);
                let mut out = Texture::new(width, height);
                let mut x: usize = 0;
                while x < height
                    invariant
                        solver.wf(),
                        all_singleton(solver.doms()),
                        fin == solver.doms(),
                        asn == Seq::new(fin.len(), |cc: int| fin[cc][0]),
                        fin.len() == n,
                        n == width * height,
                        p_count == self.patterns@.len(),
                        solver.n_patterns == p_count,
                        self.wf(),
                        width >= 1,
                        height >= 1,
                        x <= height,
                        out.wf(),
                        out.width == width,
                        out.height == height,
                        forall|i: int, j: int|
                            0 <= i < x && 0 <= j < width ==> #[trigger] out.color_at(i, j)
                                == self.patterns@[asn[i * width + j] as int].pixels@[0],
                    decreases height - x,
                {
                    let mut y: usize = 0;
                    while y < width
                        invariant
                            solver.wf(),
                            all_singleton(solver.doms()),
                            fin == solver.doms(),
                            asn == Seq::new(fin.len(), |cc: int| fin[cc][0]),
                            fin.len() == n,
                            n == width * height,
                            p_count == self.patterns@.len(),
                            solver.n_patterns == p_count,
                            self.wf(),
                            width >= 1,
                            height >= 1,
                            x < height,
                            y <= width,
                            out.wf(),
                            out.width == width,
                            out.height == height,
                            forall|i: int, j: int|
                                0 <= i < x && 0 <= j < width ==> #[trigger] out.color_at(i, j)
                                    == self.patterns@[asn[i * width + j] as int].pixels@[0],
                            forall|j: int|
                                0 <= j < y ==> #[trigger] out.color_at(x as int, j)
                                    == self.patterns@[asn[x as int * width + j] as int].pixels@[0],
                        decreases width - y,
                    {
                        proof {
                            lemma_pos_index_bound(x as int, y as int, width as int, height as int);
                        }
                        let idx = x * width + y;
                        let cell = solver.etable.at(idx);
                        proof {
                            assert(cell@ == fin[idx as int]);
                            assert(fin[idx as int].len() == 1);
                        }
                        let id = cell[0];
                        proof {
                            assert(domain_wf(fin[idx as int], p_count as int));
                            assert(id < p_count);
                            assert(self.patterns@[id as int].wf());
                            assert(self.patterns@[id as int].pixels@.len() >= 1) by {
                                let s = self.patterns@[id as int].size as int;
                                assert(s * s >= 1) by (nonlinear_arith)
                                    requires
                                        s >= 1,
                                ;
                            }
                        }
                        let color = self.patterns[id].pixels[0];
                        let ghost out_before = out;
                        out.put_pixel(x, y, color);
                        proof {
                            assert(asn[x as int * width + y as int] == id);
                            assert forall|i: int, j: int|
                                0 <= i < x && 0 <= j < width implies #[trigger] out.color_at(i, j)
                                    == self.patterns@[asn[i * width + j] as int].pixels@[0] by {
                                assert(out.color_at(i, j) == out_before.color_at(i, j));
                            }
                            assert forall|j: int|
                                0 <= j < y + 1 implies #[trigger] out.color_at(x as int, j)
                                    == self.patterns@[asn[x as int * width + j] as int].pixels@[0]
                                by {
                                if j < y {
                                    assert(out.color_at(x as int, j) == out_before.color_at(
                                        x as int,
                                        j,
                                    ));
                                }
                            }
                        }
                        y = y + 1;
                    }
                    x = x + 1;
                }
                proof {
                    assert forall|cc: int| 0 <= cc < asn.len() implies (#[trigger] asn[cc])
                        < self.patterns@.len() by {
                        assert(domain_wf(fin[cc], p_count as int));
                        assert(fin[cc][0] < p_count);
                    }
                    if arcs_ok(
                        self.ctable,
                        full_doms(p_count as int, n as int),
                        width as int,
                        height as int,
                    ) {
                        assert(arcs_ok(self.ctable, init, width as int, height as int));
                        assert forall|cc: int, d: Direction|
                            0 <= cc < asn.len() && #[trigger] has_nbr(
                                width as int,
                                height as int,
                                cc,
                                d,
                            ) implies self.ctable.allows_spec(
                            asn[cc] as int,
                            asn[nbr_of(width as int, cc, d)] as int,
                            d,
                        ) by {
                            lemma_nbr_in_grid(width as int, height as int, cc, d);
                            assert(self.ctable.allows_spec(
                                fin[cc][0] as int,
                                fin[nbr_of(width as int, cc, d)][0] as int,
                                d,
                            ));
                        }
                        assert(sound_assignment(self.ctable, asn, width as int, height as int));
                    }
                    assert(self.generated_from(out, asn, width as int, height as int));
                }
                Result::Ok(out)
            },
        }
    }
}

/// A complete extraction supports every pattern in every direction: for any
/// pattern of the set and any direction there is a pattern of the set —
/// the one read off the neighbouring anchor under toroidal wrap — that
/// allows it there. The fully open grid is therefore arc-consistent.
pub proof fn lemma_extracted_arcs_ok(
    tex: Texture,
    k: int,
    patterns: Seq<Pattern>,
    ct: ConstraintsTable,
    w: int,
    h: int,
)
    requires
        tex.wf(),
        tex.width >= 1,
        tex.height >= 1,
        k >= 1,
        crate::pattern::extraction_wf(patterns, tex, k),
        forall|x: int, y: int|
            0 <= x < tex.height && 0 <= y < tex.width ==> crate::pattern::contains_pixels(
                patterns,
                #[trigger] crate::pattern::sample(tex, k, x, y),
            ),
        ct.matches(patterns),
        w >= 1,
        h >= 1,
    ensures
        arcs_ok(ct, full_doms(patterns.len() as int, w * h), w, h),
{
    let p_count = patterns.len() as int;
    let doms = full_doms(p_count, w * h);
    assert(w * h >= 0) by (nonlinear_arith)
        requires
            w >= 1,
            h >= 1,
    ;
    assert forall|c: int, d: Direction|
        0 <= c < doms.len() && #[trigger] has_nbr(w, h, c, d) implies arc_ok(
        ct,
        doms[c],
        doms[nbr_of(w, c, d)],
        d,
    ) by {
        lemma_nbr_in_grid(w, h, c, d);
        let src = doms[c];
        let dst = doms[nbr_of(w, c, d)];
        assert(src == full_domain(p_count));
        assert(dst == full_domain(p_count));
        assert forall|j: int| 0 <= j < dst.len() implies has_support(
            ct,
            src,
            #[trigger] dst[j],
            d,
        ) by {
            let q = dst[j];
            assert(q as int == j);
            assert(crate::pattern::from_anchor(patterns[j], tex, k));
            let (x, y) = choose|x: int, y: int|
                0 <= x < tex.height && 0 <= y < tex.width && patterns[j].pixels@
                    == crate::pattern::sample(tex, k, x, y);
            let anchor = crate::pattern::support_anchor(tex, x, y, d);
            assert(0 <= anchor.0 < tex.height && 0 <= anchor.1 < tex.width) by {
                vstd::arithmetic::div_mod::lemma_mod_bound(x + 1, tex.height as int);
                vstd::arithmetic::div_mod::lemma_mod_bound(
                    x + tex.height - 1,
                    tex.height as int,
                );
                vstd::arithmetic::div_mod::lemma_mod_bound(y + 1, tex.width as int);
                vstd::arithmetic::div_mod::lemma_mod_bound(y + tex.width - 1, tex.width as int);
            }
            assert(crate::pattern::contains_pixels(
                patterns,
                crate::pattern::sample(tex, k, anchor.0, anchor.1),
            ));
            let pi = choose|pi: int|
                0 <= pi < patterns.len() && patterns[pi].pixels@ == crate::pattern::sample(
                    tex,
                    k,
                    anchor.0,
                    anchor.1,
                );
            crate::pattern::lemma_sample_overlap(tex, k, patterns[pi], patterns[j], x, y, d);
            assert(ct.allows_spec(pi, j, d));
            assert(src[pi] == pi as usize);
            assert(ct.allows_spec(src[pi] as int, q as int, d));
        }
    }
}

/// Propagation is deterministic: the contract of the propagator pins its
/// result. Any two grids that are arc-consistent restrictions of the same
/// starting grid and that each contain every arc-consistent subfamily of it
/// — which is what a successful propagation from consistent arcs returns —
/// are one and the same grid. Together with the pinned observation step,
/// every cycle of the solver is a function of its state and its two draws
/// alone, so one pseudo-random stream always reproduces one output.
pub proof fn lemma_propagation_deterministic(
    ct: ConstraintsTable,
    init: Seq<Seq<usize>>,
    r1: Seq<Seq<usize>>,
    r2: Seq<Seq<usize>>,
    w: int,
    h: int,
)
    requires
        r1.len() == init.len(),
        r2.len() == init.len(),
        arcs_ok(ct, r1, w, h),
        arcs_ok(ct, r2, w, h),
        family_sub(r1, init),
        family_sub(r2, init),
        restrictions_of(r1, init),
        restrictions_of(r2, init),
        forall|f: Seq<Seq<usize>>|
            #[trigger] arcs_ok(ct, f, w, h) && f.len() == init.len() && family_sub(f, init)
                ==> family_sub(f, r1),
        forall|f: Seq<Seq<usize>>|
            #[trigger] arcs_ok(ct, f, w, h) && f.len() == init.len() && family_sub(f, init)
                ==> family_sub(f, r2),
    ensures
        r1 == r2,
{
    assert(family_sub(r1, r2));
    assert(family_sub(r2, r1));
    assert forall|c: int| 0 <= c < init.len() implies r1[c] == r2[c] by {
        assert(restriction_of(r1[c], init[c]));
        assert(restriction_of(r2[c], init[c]));
        assert(subdomain_of(r1[c], r2[c]));
        assert(subdomain_of(r2[c], r1[c]));
        assert forall|x: usize| #[trigger] r1[c].contains(x) == r2[c].contains(x) by {
            if r1[c].contains(x) {
                let j = choose|j: int| 0 <= j < r1[c].len() && r1[c][j] == x;
                assert(r2[c].contains(r1[c][j]));
            }
            if r2[c].contains(x) {
                let j = choose|j: int| 0 <= j < r2[c].len() && r2[c][j] == x;
                assert(r1[c].contains(r2[c][j]));
            }
        }
        lemma_restriction_unique(r1[c], r2[c], init[c]);
    }
    assert(r1 =~= r2);
}

} // verus!
