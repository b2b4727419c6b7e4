use vstd::prelude::*;

use crate::vector::{
    cross_s, dot_s, in_bound, lemma_cross_bound, lemma_dot_bound, lemma_mul_bound, neg_s, sub_s,
    tri_normal_s, triple_cross_s, Int3, COORD_LIMIT, DIFF_LIMIT, DIR_LIMIT,
};

verus! {

/// Why a query failed.  Every failure is fatal to the current query;
/// the caller may retry with another initial direction.
#[derive(Debug, Clone, Copy, PartialEq, Eq, Structural)]
pub enum Error {
    /// A shape has fewer than 4 vertices.
    InvalidInput,
    /// The simplex-refinement loop exceeded its iteration bound.
    SimplexSearch,
    /// The closest-feature vertex-replacement loop exceeded its bound.
    NearestSimplexSearch,
    /// The edge/face classification loop exceeded its bound.
    NearestFeatureSearch,
    /// The polytope-expansion loop exceeded its bound.
    EPA,
}

/// A vertex of the Minkowski difference `A - B` together with the
/// indices of the originating vertices in each shape.
#[derive(Debug, Clone, Copy)]
pub struct MinkowskiSumPoint {
    pub v: Int3,
    pub a: usize,
    pub b: usize,
}

impl PartialEq for MinkowskiSumPoint {
    /// Two support points are the same point when they come from the
    /// same pair of vertices, whatever the recomputed coordinates say.
    fn eq(&self, rhs: &Self) -> (r: bool) {
        self.a == rhs.a && self.b == rhs.b
    }
}

impl vstd::std_specs::cmp::PartialEqSpecImpl for MinkowskiSumPoint {
    open spec fn obeys_eq_spec() -> bool {
        true
    }

    open spec fn eq_spec(&self, rhs: &Self) -> bool {
        self.a == rhs.a && self.b == rhs.b
    }
}

impl Default for MinkowskiSumPoint {
    fn default() -> (r: Self)
        ensures
            r.v == (Int3 { x: 0, y: 0, z: 0 }),
            r.a == 0,
            r.b == 0,
    {
        MinkowskiSumPoint { v: Int3 { x: 0, y: 0, z: 0 }, a: 0, b: 0 }
    }
}

/// Every vertex of the shape is within `COORD_LIMIT` in each component.
pub open spec fn poly_ok(p: Seq<Int3>) -> bool {
    forall|i: int| 0 <= i < p.len() ==> in_bound(#[trigger] p[i], COORD_LIMIT as int)
}

/// The vertex at `i` projects at least as far onto `d` as every vertex
/// of the shape.
pub open spec fn is_max(p: Seq<Int3>, d: Int3, i: int) -> bool {
    forall|j: int| 0 <= j < p.len() ==> dot_s(p[j], d) <= dot_s(p[i], d)
}

/// The support point draws its indices from the two shapes and its
/// vector is the difference of the vertices they name.
pub open spec fn valid_point(p: MinkowskiSumPoint, pa: Seq<Int3>, pb: Seq<Int3>) -> bool {
    &&& p.a < pa.len()
    &&& p.b < pb.len()
    &&& p.v == sub_s(pa[p.a as int], pb[p.b as int])
}

/// A valid support point of bounded shapes is bounded by `DIFF_LIMIT`.
pub proof fn lemma_point_bound(p: MinkowskiSumPoint, pa: Seq<Int3>, pb: Seq<Int3>)
    requires
        valid_point(p, pa, pb),
        poly_ok(pa),
        poly_ok(pb),
    ensures
        in_bound(p.v, DIFF_LIMIT as int),
{
    assert(in_bound(pa[p.a as int], COORD_LIMIT as int));
    assert(in_bound(pb[p.b as int], COORD_LIMIT as int));
}

/// `c` is exactly the list of indices of the vertices of `p` extremal
/// in direction `d`, in increasing order.
pub open spec fn cand_exact(c: Seq<usize>, p: Seq<Int3>, d: Int3) -> bool {
    &&& c.len() >= 1
    &&& forall|k1: int, k2: int| 0 <= k1 < k2 < c.len() ==> c[k1] < c[k2]
    &&& forall|k: int| 0 <= k < c.len() ==> (#[trigger] c[k]) < p.len() && is_max(p, d, c[k] as int)
    &&& forall|i: int| 0 <= i < p.len() && is_max(p, d, i) ==> c.contains(i as usize)
}

/// The frame's candidate lists hold valid, increasing vertex indices.
pub open spec fn cands_ok(f: Frame3Simplex, pa: Seq<Int3>, pb: Seq<Int3>) -> bool {
    &&& forall|k: int| 0 <= k < f.candidate_a@.len() ==> (#[trigger] f.candidate_a@[k]) < pa.len()
    &&& forall|k: int| 0 <= k < f.candidate_b@.len() ==> (#[trigger] f.candidate_b@[k]) < pb.len()
    &&& forall|k1: int, k2: int|
        0 <= k1 < k2 < f.candidate_a@.len() ==> f.candidate_a@[k1] < f.candidate_a@[k2]
    &&& forall|k1: int, k2: int|
        0 <= k1 < k2 < f.candidate_b@.len() ==> f.candidate_b@[k1] < f.candidate_b@[k2]
}

/// Caller-owned scratch and result state for one shape pair.  The core
/// borrows it for the duration of one query; reusing it across
/// sequential queries avoids reallocation.
#[derive(Debug)]
pub struct Frame3Simplex {
    /// Minimum translation vector, fixed point, unit length up to
    /// rounding (its pre-normalization magnitude is `min_dist`).
    pub mtv: Int3,
    /// Magnitude of the un-normalized translation vector, fixed point.
    pub min_dist: i128,
    /// The cached triangle of the most recent classification.
    pub s0: MinkowskiSumPoint,
    pub s1: MinkowskiSumPoint,
    pub s2: MinkowskiSumPoint,
    /// Witness point on shape A, fixed point.
    pub closest_a: Int3,
    /// Witness point on shape B, fixed point.
    pub closest_b: Int3,
    /// Face cache of the expanding-polytope phase.
    pub cache_epa: Vec<EPA2Simplex>,
    /// Indices of the shape-A vertices tied for the latest support query.
    pub candidate_a: Vec<usize>,
    /// Indices of the shape-B vertices tied for the latest support query.
    pub candidate_b: Vec<usize>,
}

impl Frame3Simplex {
    /// A fresh frame with empty caches and zeroed results.
    pub fn new() -> (r: Frame3Simplex)
        ensures
            r.mtv == (Int3 { x: 0, y: 0, z: 0 }),
            r.min_dist == 0,
            r.s0.a == 0 && r.s0.b == 0 && r.s0.v == (Int3 { x: 0, y: 0, z: 0 }),
            r.s1.a == 0 && r.s1.b == 0 && r.s1.v == (Int3 { x: 0, y: 0, z: 0 }),
            r.s2.a == 0 && r.s2.b == 0 && r.s2.v == (Int3 { x: 0, y: 0, z: 0 }),
            r.closest_a == (Int3 { x: 0, y: 0, z: 0 }),
            r.closest_b == (Int3 { x: 0, y: 0, z: 0 }),
            r.cache_epa@.len() == 0,
            r.candidate_a@.len() == 0,
            r.candidate_b@.len() == 0,
    {
        Frame3Simplex {
            mtv: Int3 { x: 0, y: 0, z: 0 },
            min_dist: 0,
            s0: Default::default(),
            s1: Default::default(),
            s2: Default::default(),
            closest_a: Int3 { x: 0, y: 0, z: 0 },
            closest_b: Int3 { x: 0, y: 0, z: 0 },
            cache_epa: Vec::new(),
            candidate_a: Vec::new(),
            candidate_b: Vec::new(),
        }
    }

    /// Record the current triangle in the frame.
    pub fn cache(&mut self, v0: MinkowskiSumPoint, v1: MinkowskiSumPoint, v2: MinkowskiSumPoint)
        ensures
            final(self).s0 == v0,
            final(self).s1 == v1,
            final(self).s2 == v2,
            final(self).mtv == old(self).mtv,
            final(self).min_dist == old(self).min_dist,
            final(self).closest_a == old(self).closest_a,
            final(self).closest_b == old(self).closest_b,
            final(self).cache_epa == old(self).cache_epa,
            final(self).candidate_a == old(self).candidate_a,
            final(self).candidate_b == old(self).candidate_b,
    {
        self.s0 = v0;
        self.s1 = v1;
        self.s2 = v2;
    }
}

/// The direction chosen when a perpendicular to `v0` through the plane
/// of `v0` and `v1` is needed: the cross of `cross(v0, v1)` with `v0`,
/// or, when that cross product is degenerate (by the zero test, which
/// looks only at x and y), a triple cross against an axis picked by
/// strict smallest-component comparisons.  The strict ties mean an
/// axis-aligned `v0` selects the z axis, so for a z-only `v0` the
/// fallback is zero; the downstream walk tolerates it, and the
/// seemingly safer non-strict pick changes which perpendicular the
/// refinement starts from and degrades the separated-cube distances,
/// so the strict pick is kept deliberately.
pub open spec fn plane_normal_s(v0: Int3, v1: Int3) -> Int3 {
    let c = cross_s(v0, v1);
    if c.x == 0 && c.y == 0 {
        let x = if v0.x >= 0 { v0.x as int } else { -v0.x as int };
        let y = if v0.y >= 0 { v0.y as int } else { -v0.y as int };
        let z = if v0.z >= 0 { v0.z as int } else { -v0.z as int };
        let axis = if x < y && x < z {
            Int3 { x: 1, y: 0, z: 0 }
        } else if y < x && y < z {
            Int3 { x: 0, y: 1, z: 0 }
        } else {
            Int3 { x: 0, y: 0, z: 1 }
        };
        triple_cross_s(v0, axis, v0)
    } else {
        cross_s(c, v0)
    }
}

/// A search direction perpendicular to `v0`, derived from the pair
/// `(v0, v1)`; see `plane_normal_s`.
pub fn plane_normal(v0: &Int3, v1: &Int3) -> (r: Int3)
    requires
        in_bound(*v0, 2048),
        in_bound(*v1, 2048),
    ensures
        r == plane_normal_s(*v0, *v1),
        in_bound(r, DIR_LIMIT as int),
{
    proof {
        lemma_cross_bound(*v0, *v1, 2048, 2048);
    }
    let cross01 = v0.cross(v1);
    if cross01.is_zero() {
        let x = if v0.x >= 0 { v0.x } else { -v0.x };
        let y = if v0.y >= 0 { v0.y } else { -v0.y };
        let z = if v0.z >= 0 { v0.z } else { -v0.z };
        let axis = if x < y && x < z {
            Int3 { x: 1, y: 0, z: 0 }
        } else if y < x && y < z {
            Int3 { x: 0, y: 1, z: 0 }
        } else {
            Int3 { x: 0, y: 0, z: 1 }
        };
        proof {
            lemma_cross_bound(*v0, axis, 2048, 1);
            lemma_cross_bound(cross_s(*v0, axis), *v0, 4096, 2048);
        }
        v0.triple_cross(&axis, v0)
    } else {
        proof {
            lemma_cross_bound(cross01, *v0, 8388608, 2048);
        }
        cross01.cross(v0)
    }
}

/// Fill `candidate` with every vertex index of `poly` whose projection
/// onto `d` equals the maximum, scanned left to right, in increasing
/// order.
fn support_in(poly: &Vec<Int3>, d: &Int3, candidate: &mut Vec<usize>)
    requires
        poly@.len() >= 1,
        poly_ok(poly@),
        in_bound(*d, DIR_LIMIT as int),
    ensures
        cand_exact(final(candidate)@, poly@, *d),
{
    candidate.clear();
    let mut max: i128 = i128::MIN;
    let mut i: usize = 0;
    while i < poly.len()
        invariant
            poly@.len() >= 1,
            poly_ok(poly@),
            in_bound(*d, DIR_LIMIT as int),
            0 <= i <= poly@.len(),
            i == 0 ==> candidate@.len() == 0 && max == i128::MIN,
            i > 0 ==> candidate@.len() >= 1,
            forall|k: int| 0 <= k < candidate@.len() ==> (#[trigger] candidate@[k]) < i,
            forall|k1: int, k2: int|
                0 <= k1 < k2 < candidate@.len() ==> candidate@[k1] < candidate@[k2],
            forall|k: int|
                0 <= k < candidate@.len() ==> dot_s(
                    poly@[#[trigger] candidate@[k] as int],
                    *d,
                ) == max,
            forall|j: int| 0 <= j < i ==> dot_s(#[trigger] poly@[j], *d) <= max,
            forall|j: int|
                0 <= j < i && dot_s(#[trigger] poly@[j], *d) == max ==> candidate@.contains(
                    j as usize,
                ),
        decreases poly@.len() - i,
    {
        proof {
            lemma_dot_bound(poly@[i as int], *d, COORD_LIMIT as int, DIR_LIMIT as int);
        }
        let ghost pre_cand = candidate@;
        let ghost pre_max = max;
        let c = poly[i].dot(d);
        if c > max {
            max = c;
            candidate.clear();
        }
        if c >= max {
            candidate.push(i);
        }
        proof {
            if c > pre_max {
                assert(candidate@.len() == 1 && candidate@[0] == i);
                assert forall|j: int|
                    0 <= j < i + 1 && dot_s(#[trigger] poly@[j], *d) == max implies candidate@
                    .contains(j as usize) by {
                    if j < i {
                        assert(dot_s(poly@[j], *d) <= pre_max);
                        assert(false);
                    } else {
                        assert(candidate@[0] == j as usize);
                    }
                }
            } else if c == pre_max {
                assert(candidate@ == pre_cand.push(i));
                assert forall|j: int|
                    0 <= j < i + 1 && dot_s(#[trigger] poly@[j], *d) == max implies candidate@
                    .contains(j as usize) by {
                    if j == i {
                        assert(candidate@[candidate@.len() - 1] == i);
                    } else {
                        assert(pre_cand.contains(j as usize));
                        let k = choose|k: int|
                            0 <= k < pre_cand.len() && pre_cand[k] == j as usize;
                        assert(candidate@[k] == j as usize);
                    }
                }
            } else {
                assert forall|j: int|
                    0 <= j < i + 1 && dot_s(#[trigger] poly@[j], *d) == max implies candidate@
                    .contains(j as usize) by {
                    assert(j < i);
                }
            }
        }
        i = i + 1;
    }
    proof {
        assert forall|k: int| 0 <= k < candidate@.len() implies (#[trigger] candidate@[k])
            < poly@.len() && is_max(poly@, *d, candidate@[k] as int) by {
            assert(dot_s(poly@[candidate@[k] as int], *d) == max);
        }
        assert forall|j: int|
            0 <= j < poly@.len() && is_max(poly@, *d, j) implies candidate@.contains(
            j as usize,
        ) by {
            assert(dot_s(poly@[candidate@[0] as int], *d) == max);
            assert(dot_s(poly@[candidate@[0] as int], *d) <= dot_s(poly@[j], *d));
            assert(dot_s(poly@[j], *d) == max);
        }
    }
}

/// Support of the Minkowski difference `A - B` in direction `d`, tie
/// aware: the frame's candidate lists are overwritten with every tied
/// vertex index of each shape, and the returned point is, among all
/// tied pairs, the one whose difference has the smallest squared
/// length, the first such pair in index order.
#[verifier::rlimit(100)]
pub fn support(
    polya: &Vec<Int3>,
    polyb: &Vec<Int3>,
    d: &Int3,
    f: &mut Frame3Simplex,
) -> (r: MinkowskiSumPoint)
    requires
        polya@.len() >= 1,
        polyb@.len() >= 1,
        poly_ok(polya@),
        poly_ok(polyb@),
        in_bound(*d, DIR_LIMIT as int),
    ensures
        valid_point(r, polya@, polyb@),
        is_max(polya@, *d, r.a as int),
        is_max(polyb@, neg_s(*d), r.b as int),
        cand_exact(final(f).candidate_a@, polya@, *d),
        cand_exact(final(f).candidate_b@, polyb@, neg_s(*d)),
        cands_ok(*final(f), polya@, polyb@),
        forall|i: int, j: int|
            0 <= i < final(f).candidate_a@.len() && 0 <= j < final(f).candidate_b@.len() ==> crate::vector::sqr_s(
                sub_s(
                    polya@[#[trigger] final(f).candidate_a@[i] as int],
                    polyb@[#[trigger] final(f).candidate_b@[j] as int],
                ),
            ) >= crate::vector::sqr_s(r.v),
        forall|i: int, j: int|
            0 <= i < final(f).candidate_a@.len() && 0 <= j < final(f).candidate_b@.len() && crate::vector::sqr_s(
                sub_s(
                    polya@[#[trigger] final(f).candidate_a@[i] as int],
                    polyb@[#[trigger] final(f).candidate_b@[j] as int],
                ),
            ) == crate::vector::sqr_s(r.v) ==> (r.a < final(f).candidate_a@[i] || (r.a
                == final(f).candidate_a@[i] && r.b <= final(f).candidate_b@[j])),
        final(f).candidate_a@.contains(r.a),
        final(f).candidate_b@.contains(r.b),
        r == support_s(polya@, polyb@, *d),
        final(f).mtv == old(f).mtv,
        final(f).min_dist == old(f).min_dist,
        final(f).s0 == old(f).s0,
        final(f).s1 == old(f).s1,
        final(f).s2 == old(f).s2,
        final(f).closest_a == old(f).closest_a,
        final(f).closest_b == old(f).closest_b,
        final(f).cache_epa == old(f).cache_epa,
{
    support_in(polya, d, &mut f.candidate_a);
    let nd = d.neg();
    support_in(polyb, &nd, &mut f.candidate_b);
    let mut min_a: usize = 0;
    let mut min_b: usize = 0;
    let mut v = Int3 { x: 0, y: 0, z: 0 };
    let mut min: i128 = i128::MAX;
    let ghost ca = f.candidate_a@;
    let ghost cb = f.candidate_b@;
    let ghost mut gpa: int = 0;
    let ghost mut gpb: int = 0;
    let mut ka: usize = 0;
    while ka < f.candidate_a.len()
        invariant
            poly_ok(polya@),
            poly_ok(polyb@),
            ca == f.candidate_a@,
            cb == f.candidate_b@,
            cand_exact(ca, polya@, *d),
            cand_exact(cb, polyb@, neg_s(*d)),
            0 <= ka <= ca.len(),
            ka == 0 ==> min == i128::MAX,
            ka > 0 ==> {
                &&& 0 <= gpa < ka
                &&& 0 <= gpb < cb.len()
                &&& min_a == ca[gpa]
                &&& min_b == cb[gpb]
                &&& v == sub_s(polya@[min_a as int], polyb@[min_b as int])
                &&& min == crate::vector::sqr_s(v)
            },
            forall|i: int, j: int|
                0 <= i < ka && 0 <= j < cb.len() ==> crate::vector::sqr_s(
                    sub_s(polya@[#[trigger] ca[i] as int], polyb@[#[trigger] cb[j] as int]),
                ) >= min,
            forall|i: int, j: int|
                0 <= i < ka && 0 <= j < cb.len() && crate::vector::sqr_s(
                    sub_s(polya@[#[trigger] ca[i] as int], polyb@[#[trigger] cb[j] as int]),
                ) == min ==> (gpa < i || (gpa == i && gpb <= j)),
            f.mtv == old(f).mtv,
            f.min_dist == old(f).min_dist,
            f.s0 == old(f).s0,
            f.s1 == old(f).s1,
            f.s2 == old(f).s2,
            f.closest_a == old(f).closest_a,
            f.closest_b == old(f).closest_b,
            f.cache_epa == old(f).cache_epa,
        decreases ca.len() - ka,
    {
        let mut kb: usize = 0;
        while kb < f.candidate_b.len()
            invariant
                poly_ok(polya@),
                poly_ok(polyb@),
                ca == f.candidate_a@,
                cb == f.candidate_b@,
                cand_exact(ca, polya@, *d),
                cand_exact(cb, polyb@, neg_s(*d)),
                0 <= ka < ca.len(),
                0 <= kb <= cb.len(),
                ka == 0 && kb == 0 ==> min == i128::MAX,
                ka + kb > 0 ==> {
                    &&& 0 <= gpa <= ka
                    &&& gpa < ka || gpb < kb
                    &&& 0 <= gpb < cb.len()
                    &&& min_a == ca[gpa]
                    &&& min_b == cb[gpb]
                    &&& v == sub_s(polya@[min_a as int], polyb@[min_b as int])
                    &&& min == crate::vector::sqr_s(v)
                },
                forall|i: int, j: int|
                    0 <= i < ca.len() && 0 <= j < cb.len() && (i < ka || (i == ka && j < kb))
                        ==> crate::vector::sqr_s(
                        sub_s(polya@[#[trigger] ca[i] as int], polyb@[#[trigger] cb[j] as int]),
                    ) >= min,
                forall|i: int, j: int|
                    0 <= i < ca.len() && 0 <= j < cb.len() && (i < ka || (i == ka && j < kb))
                        && crate::vector::sqr_s(
                        sub_s(polya@[#[trigger] ca[i] as int], polyb@[#[trigger] cb[j] as int]),
                    ) == min ==> (gpa < i || (gpa == i && gpb <= j)),
                f.mtv == old(f).mtv,
                f.min_dist == old(f).min_dist,
                f.s0 == old(f).s0,
                f.s1 == old(f).s1,
                f.s2 == old(f).s2,
                f.closest_a == old(f).closest_a,
                f.closest_b == old(f).closest_b,
                f.cache_epa == old(f).cache_epa,
            decreases cb.len() - kb,
        {
            let a = f.candidate_a[ka];
            let b = f.candidate_b[kb];
            proof {
                assert(in_bound(polya@[a as int], COORD_LIMIT as int));
                assert(in_bound(polyb@[b as int], COORD_LIMIT as int));
                lemma_dot_bound(
                    sub_s(polya@[a as int], polyb@[b as int]),
                    sub_s(polya@[a as int], polyb@[b as int]),
                    1024,
                    1024,
                );
            }
            let c = polya[a].sub(&polyb[b]);
            let n = c.sqr_magnitude();
            if n < min {
                min = n;
                min_a = a;
                min_b = b;
                v = c;
                proof {
                    gpa = ka as int;
                    gpb = kb as int;
                }
            }
            kb = kb + 1;
        }
        ka = ka + 1;
    }
    let r = MinkowskiSumPoint { v: v, a: min_a, b: min_b };
    proof {
        assert(ca.len() >= 1 && cb.len() >= 1);
        assert(0 <= gpa < ca.len() && 0 <= gpb < cb.len());
        assert(ca.contains(ca[gpa]));
        assert(cb.contains(cb[gpb]));
        assert forall|i: usize, j: usize|
            i < polya@.len() && j < polyb@.len() && is_max(polya@, *d, i as int) && is_max(
                polyb@,
                neg_s(*d),
                j as int,
            ) implies crate::vector::sqr_s(
            sub_s(#[trigger] polya@[i as int], #[trigger] polyb@[j as int]),
        ) >= crate::vector::sqr_s(r.v) by {
            assert(ca.contains(i));
            assert(cb.contains(j));
            let ki = choose|k: int| 0 <= k < ca.len() && ca[k] == i;
            let kj = choose|k: int| 0 <= k < cb.len() && cb[k] == j;
            assert(0 <= ki < ca.len() && ca[ki] == i);
            assert(0 <= kj < cb.len() && cb[kj] == j);
            assert(crate::vector::sqr_s(
                sub_s(polya@[ca[ki] as int], polyb@[cb[kj] as int]),
            ) >= min);
        }
        assert forall|i: usize, j: usize|
            i < polya@.len() && j < polyb@.len() && is_max(polya@, *d, i as int) && is_max(
                polyb@,
                neg_s(*d),
                j as int,
            ) && crate::vector::sqr_s(sub_s(#[trigger] polya@[i as int], #[trigger] polyb@[j as int]))
            == crate::vector::sqr_s(r.v) implies (r.a < i || (r.a == i && r.b <= j)) by {
            assert(ca.contains(i));
            assert(cb.contains(j));
            let ki = choose|k: int| 0 <= k < ca.len() && ca[k] == i;
            let kj = choose|k: int| 0 <= k < cb.len() && cb[k] == j;
            assert(0 <= ki < ca.len() && ca[ki] == i);
            assert(0 <= kj < cb.len() && cb[kj] == j);
            assert(crate::vector::sqr_s(
                sub_s(polya@[ca[ki] as int], polyb@[cb[kj] as int]),
            ) == min);
            assert(gpa < ki || (gpa == ki && gpb <= kj));
            assert(r.a == ca[gpa] && r.b == cb[gpb]);
            if gpa < ki {
                assert(ca[gpa] < ca[ki]);
            } else {
                assert(gpa == ki && gpb <= kj);
                if gpb < kj {
                    assert(cb[gpb] < cb[kj]);
                }
            }
        }
        assert(support_post(polya@, polyb@, *d, r));
        lemma_support_s_is(polya@, polyb@, *d, r);
    }
    r
}

/// Some tied pair of the candidate lists lies strictly beyond `s1v`
/// along `n`, and the lists hold at least three pairs (the guard under
/// which the tie-aware search runs at all).
pub open spec fn better_exists(
    pa: Seq<Int3>,
    pb: Seq<Int3>,
    ca: Seq<usize>,
    cb: Seq<usize>,
    n: Int3,
    s1v: Int3,
) -> bool {
    ca.len() * cb.len() >= 3 && exists|i: int, j: int|
        0 <= i < ca.len() && 0 <= j < cb.len() && dot_s(
            sub_s(sub_s(pa[#[trigger] ca[i] as int], pb[#[trigger] cb[j] as int]), s1v),
            n,
        ) > 0
}

/// When the latest support query was tied in at least three vertex
/// pairs, look for a tied pair whose Minkowski vertex lies strictly
/// beyond `s1` along `n`.  When one exists, the best such pair (first
/// in index order among those farthest along `n`) replaces `s1`, the
/// old `s1` replaces `s2`, and the call reports true; otherwise nothing
/// changes and it reports false.
pub fn better_support_in_candidate(
    polya: &Vec<Int3>,
    polyb: &Vec<Int3>,
    n: &Int3,
    s1: &mut MinkowskiSumPoint,
    s2: &mut MinkowskiSumPoint,
    f: &Frame3Simplex,
) -> (r: bool)
    requires
        poly_ok(polya@),
        poly_ok(polyb@),
        cands_ok(*f, polya@, polyb@),
        in_bound(*n, EDGE_NORMAL_LIMIT as int),
        valid_point(*old(s1), polya@, polyb@),
    ensures
        r == better_exists(polya@, polyb@, f.candidate_a@, f.candidate_b@, *n, old(s1).v),
        !r ==> *final(s1) == *old(s1) && *final(s2) == *old(s2),
        r ==> *final(s2) == *old(s1),
        r ==> valid_point(*final(s1), polya@, polyb@),
        r ==> dot_s(sub_s(final(s1).v, old(s1).v), *n) > 0,
        r ==> forall|i: int, j: int|
            0 <= i < f.candidate_a@.len() && 0 <= j < f.candidate_b@.len() ==> dot_s(
                sub_s(
                    sub_s(
                        polya@[#[trigger] f.candidate_a@[i] as int],
                        polyb@[#[trigger] f.candidate_b@[j] as int],
                    ),
                    old(s1).v,
                ),
                *n,
            ) <= dot_s(sub_s(final(s1).v, old(s1).v), *n),
        r ==> f.candidate_a@.contains(final(s1).a) && f.candidate_b@.contains(final(s1).b),
        r ==> forall|i: int, j: int|
            0 <= i < f.candidate_a@.len() && 0 <= j < f.candidate_b@.len() && dot_s(
                sub_s(
                    sub_s(
                        polya@[#[trigger] f.candidate_a@[i] as int],
                        polyb@[#[trigger] f.candidate_b@[j] as int],
                    ),
                    old(s1).v,
                ),
                *n,
            ) == dot_s(sub_s(final(s1).v, old(s1).v), *n) ==> (final(s1).a < f.candidate_a@[i]
                || (final(s1).a == f.candidate_a@[i] && final(s1).b <= f.candidate_b@[j])),
{
    let la = f.candidate_a.len() as u128;
    let lb = f.candidate_b.len() as u128;
    proof {
        lemma_mul_bound(la as int, lb as int, 0xFFFFFFFFFFFFFFFF, 0xFFFFFFFFFFFFFFFF);
    }
    if la * lb < 3 {
        return false;
    }
    let mut s3: MinkowskiSumPoint = Default::default();
    let mut max: i128 = 0;
    let ghost ca = f.candidate_a@;
    let ghost cb = f.candidate_b@;
    let ghost s1o = *s1;
    let ghost mut gpa: int = 0;
    let ghost mut gpb: int = 0;
    let ghost mut found = false;
    let mut ka: usize = 0;
    while ka < f.candidate_a.len()
        invariant
            poly_ok(polya@),
            poly_ok(polyb@),
            ca == f.candidate_a@,
            cb == f.candidate_b@,
            cands_ok(*f, polya@, polyb@),
            in_bound(*n, EDGE_NORMAL_LIMIT as int),
            valid_point(s1o, polya@, polyb@),
            *s1 == s1o,
            *s2 == *old(s2),
            0 <= ka <= ca.len(),
            !found ==> max == 0,
            found ==> {
                &&& 0 <= gpa < ka
                &&& 0 <= gpb < cb.len()
                &&& s3.a == ca[gpa] && s3.b == cb[gpb]
                &&& valid_point(s3, polya@, polyb@)
                &&& max == dot_s(sub_s(s3.v, s1o.v), *n)
                &&& max > 0
            },
            forall|i: int, j: int|
                0 <= i < ka && 0 <= j < cb.len() ==> dot_s(
                    sub_s(
                        sub_s(polya@[#[trigger] ca[i] as int], polyb@[#[trigger] cb[j] as int]),
                        s1o.v,
                    ),
                    *n,
                ) <= max,
            found ==> forall|i: int, j: int|
                0 <= i < ka && 0 <= j < cb.len() && dot_s(
                    sub_s(
                        sub_s(polya@[#[trigger] ca[i] as int], polyb@[#[trigger] cb[j] as int]),
                        s1o.v,
                    ),
                    *n,
                ) == max ==> (gpa < i || (gpa == i && gpb <= j)),
        decreases ca.len() - ka,
    {
        let mut kb: usize = 0;
        while kb < f.candidate_b.len()
            invariant
                poly_ok(polya@),
                poly_ok(polyb@),
                ca == f.candidate_a@,
                cb == f.candidate_b@,
                cands_ok(*f, polya@, polyb@),
                in_bound(*n, EDGE_NORMAL_LIMIT as int),
                valid_point(s1o, polya@, polyb@),
                *s1 == s1o,
                *s2 == *old(s2),
                0 <= ka < ca.len(),
                0 <= kb <= cb.len(),
                !found ==> max == 0,
                found ==> {
                    &&& (gpa < ka || (gpa == ka && gpb < kb))
                    &&& 0 <= gpa < ca.len()
                    &&& 0 <= gpb < cb.len()
                    &&& s3.a == ca[gpa] && s3.b == cb[gpb]
                    &&& valid_point(s3, polya@, polyb@)
                    &&& max == dot_s(sub_s(s3.v, s1o.v), *n)
                    &&& max > 0
                },
                forall|i: int, j: int|
                    0 <= i < ca.len() && 0 <= j < cb.len() && (i < ka || (i == ka && j < kb))
                        ==> dot_s(
                        sub_s(
                            sub_s(polya@[#[trigger] ca[i] as int], polyb@[#[trigger] cb[j] as int]),
                            s1o.v,
                        ),
                        *n,
                    ) <= max,
                found ==> forall|i: int, j: int|
                    0 <= i < ca.len() && 0 <= j < cb.len() && (i < ka || (i == ka && j < kb))
                        && dot_s(
                        sub_s(
                            sub_s(polya@[#[trigger] ca[i] as int], polyb@[#[trigger] cb[j] as int]),
                            s1o.v,
                        ),
                        *n,
                    ) == max ==> (gpa < i || (gpa == i && gpb <= j)),
            decreases cb.len() - kb,
        {
            let a = f.candidate_a[ka];
            let b = f.candidate_b[kb];
            proof {
                assert(in_bound(polya@[a as int], COORD_LIMIT as int));
                assert(in_bound(polyb@[b as int], COORD_LIMIT as int));
                lemma_point_bound(s1o, polya@, polyb@);
                lemma_dot_bound(
                    sub_s(sub_s(polya@[a as int], polyb@[b as int]), s1o.v),
                    *n,
                    2048,
                    562949953421312,
                );
            }
            let vv = polya[a].sub(&polyb[b]);
            let nn = vv.sub(&s1.v).dot(n);
            if nn > max {
                max = nn;
                s3 = MinkowskiSumPoint { v: vv, a: a, b: b };
                proof {
                    gpa = ka as int;
                    gpb = kb as int;
                    found = true;
                }
            }
            kb = kb + 1;
        }
        ka = ka + 1;
    }
    if max > 0 {
        let tmp = *s1;
        *s1 = s3;
        *s2 = tmp;
        proof {
            assert(dot_s(
                sub_s(
                    sub_s(polya@[ca[gpa] as int], polyb@[cb[gpb] as int]),
                    s1o.v,
                ),
                *n,
            ) > 0);
            assert(ca.contains(ca[gpa]));
            assert(cb.contains(cb[gpb]));
            assert forall|i: int, j: int|
                0 <= i < ca.len() && 0 <= j < cb.len() && dot_s(
                    sub_s(
                        sub_s(polya@[#[trigger] ca[i] as int], polyb@[#[trigger] cb[j] as int]),
                        s1o.v,
                    ),
                    *n,
                ) == max implies (ca[gpa] < ca[i] || (ca[gpa] == ca[i] && cb[gpb] <= cb[j])) by {
                assert(gpa < i || (gpa == i && gpb <= j));
                if gpa < i {
                    assert(ca[gpa] < ca[i]);
                } else if gpb < j {
                    assert(cb[gpb] < cb[j]);
                }
            }
        }
        true
    } else {
        false
    }
}

/// Largest component magnitude of an edge normal handed to
/// `better_support_in_candidate`.
pub const EDGE_NORMAL_LIMIT: i128 = 562949953421312;

/// Where the point of a polytope face closest to the origin lies: in
/// the face interior, or past one of its three edges.
#[derive(Debug, Clone, Copy, PartialEq, Eq, Structural)]
pub enum Region {
    Edge0,
    Edge1,
    Edge2,
    Interior,
}

/// A triangular face of the expanding polytope, with its precomputed
/// closest point to the origin and the classification of that point.
#[derive(Debug, Clone, Copy)]
pub struct EPA2Simplex {
    pub v0: MinkowskiSumPoint,
    pub v1: MinkowskiSumPoint,
    pub v2: MinkowskiSumPoint,
    /// Face normal (integer scale).
    pub n: Int3,
    /// Closest point of the face feature to the origin, fixed point.
    pub p: Int3,
    /// The edge vector of the winning edge (integer scale).
    pub e: Int3,
    /// Edge parameterization numerator `e . v_start` (edge regions).
    pub d0: i128,
    /// Edge parameterization denominator `|e|^2` (edge regions).
    pub d1: i128,
    /// Which feature of the face holds the closest point.
    pub region: Region,
    /// Squared distance of `p` from the origin (fixed point squared);
    /// the expansion priority.
    pub d_sqr: i128,
}

/// The face a triple of support points constructs: its normal, the
/// region of its closest point to the origin, the edge parameterization
/// of that region and the closest point itself.  Mirrors
/// `EPA2Simplex::new` exactly.
pub open spec fn epa_face_s(
    p0: MinkowskiSumPoint,
    p1: MinkowskiSumPoint,
    p2: MinkowskiSumPoint,
) -> EPA2Simplex {
    let n = tri_normal_s(p0.v, p1.v, p2.v);
    let e0 = sub_s(p1.v, p0.v);
    let e1 = sub_s(p2.v, p1.v);
    let e2 = sub_s(p0.v, p2.v);
    let t0 = -dot_s(cross_s(e0, n), p0.v);
    let t1 = -dot_s(cross_s(e1, n), p1.v);
    let t2 = -dot_s(cross_s(e2, n), p2.v);
    if t0 >= 0 && !(e0.x == 0 && e0.y == 0) {
        let d0 = dot_s(e0, p0.v);
        let d1 = crate::vector::sqr_s(e0);
        let p = crate::vector::lerp_pts_s(p0.v, p1.v, crate::vector::ratio_fp_s(d0, d1));
        EPA2Simplex {
            v0: p0, v1: p1, v2: p2, n: n, p: p, e: e0,
            d0: d0 as i128, d1: d1 as i128,
            region: Region::Edge0,
            d_sqr: crate::vector::sqr_s(p) as i128,
        }
    } else if t1 >= 0 && !(e1.x == 0 && e1.y == 0) {
        let d0 = dot_s(e1, p1.v);
        let d1 = crate::vector::sqr_s(e1);
        let p = crate::vector::lerp_pts_s(p1.v, p2.v, crate::vector::ratio_fp_s(d0, d1));
        EPA2Simplex {
            v0: p0, v1: p1, v2: p2, n: n, p: p, e: e1,
            d0: d0 as i128, d1: d1 as i128,
            region: Region::Edge1,
            d_sqr: crate::vector::sqr_s(p) as i128,
        }
    } else if t2 >= 0 && !(e2.x == 0 && e2.y == 0) {
        let d0 = dot_s(e2, p2.v);
        let d1 = crate::vector::sqr_s(e2);
        let p = crate::vector::lerp_pts_s(p2.v, p0.v, crate::vector::ratio_fp_s(d0, d1));
        EPA2Simplex {
            v0: p0, v1: p1, v2: p2, n: n, p: p, e: e2,
            d0: d0 as i128, d1: d1 as i128,
            region: Region::Edge2,
            d_sqr: crate::vector::sqr_s(p) as i128,
        }
    } else {
        let p = crate::vector::proj_fp_s(n, p0.v);
        EPA2Simplex {
            v0: p0, v1: p1, v2: p2, n: n, p: p, e: e0,
            d0: t0 as i128, d1: t1 as i128,
            region: Region::Interior,
            d_sqr: crate::vector::sqr_s(p) as i128,
        }
    }
}

/// The face's fields are well formed with respect to the two shapes:
/// its support points are valid and every numeric field is within the
/// range the reconstruction helpers accept.
pub open spec fn face_wf(e: EPA2Simplex, pa: Seq<Int3>, pb: Seq<Int3>) -> bool {
    &&& valid_point(e.v0, pa, pb)
    &&& valid_point(e.v1, pa, pb)
    &&& valid_point(e.v2, pa, pb)
    &&& in_bound(e.n, 8388608)
    &&& in_bound(e.p, crate::vector::FP_BOUND as int)
    &&& -crate::vector::RATIO_LIMIT <= e.d0 <= crate::vector::RATIO_LIMIT
    &&& -crate::vector::RATIO_LIMIT <= e.d1 <= crate::vector::RATIO_LIMIT
    &&& 0 <= e.d_sqr <= 124515522497539473408
}

impl EPA2Simplex {
    /// Build the face `(v0, v1, v2)`: compute its normal, classify the
    /// closest point of the face to the origin as interior or past one
    /// of the three edges (an edge wins when the origin's projection
    /// falls outside the triangle across it and the edge is not
    /// degenerate by the zero test), and precompute that closest point and its
    /// squared distance.
    pub fn new(
        v0: &MinkowskiSumPoint,
        v1: &MinkowskiSumPoint,
        v2: &MinkowskiSumPoint,
    ) -> (r: EPA2Simplex)
        requires
            in_bound(v0.v, DIFF_LIMIT as int),
            in_bound(v1.v, DIFF_LIMIT as int),
            in_bound(v2.v, DIFF_LIMIT as int),
        ensures
            r == epa_face_s(*v0, *v1, *v2),
            r.v0 == *v0 && r.v1 == *v1 && r.v2 == *v2,
            in_bound(r.n, 8388608),
            in_bound(r.p, crate::vector::FP_BOUND as int),
            -crate::vector::RATIO_LIMIT <= r.d0 <= crate::vector::RATIO_LIMIT,
            -crate::vector::RATIO_LIMIT <= r.d1 <= crate::vector::RATIO_LIMIT,
            0 <= r.d_sqr <= 124515522497539473408,
            r.d_sqr == crate::vector::sqr_s(r.p),
    {
        proof {
            lemma_cross_bound(
                sub_s(v1.v, v0.v),
                sub_s(v2.v, v0.v),
                2048,
                2048,
            );
        }
        let n = v0.v.triangle_normal(&v1.v, &v2.v);
        let e0 = v1.v.sub(&v0.v);
        let e1 = v2.v.sub(&v1.v);
        let e2 = v0.v.sub(&v2.v);
        proof {
            lemma_cross_bound(e0, n, 2048, 8388608);
            lemma_cross_bound(e1, n, 2048, 8388608);
            lemma_cross_bound(e2, n, 2048, 8388608);
            lemma_dot_bound(cross_s(e0, n), v0.v, 34359738368, 1024);
            lemma_dot_bound(cross_s(e1, n), v1.v, 34359738368, 1024);
            lemma_dot_bound(cross_s(e2, n), v2.v, 34359738368, 1024);
        }
        let n0 = e0.cross(&n);
        let n1 = e1.cross(&n);
        let n2 = e2.cross(&n);
        let t0 = -(n0.dot(&v0.v));
        let t1 = -(n1.dot(&v1.v));
        let t2 = -(n2.dot(&v2.v));
        proof {
            lemma_dot_bound(e0, v0.v, 2048, 1024);
            lemma_dot_bound(e1, v1.v, 2048, 1024);
            lemma_dot_bound(e2, v2.v, 2048, 1024);
            lemma_dot_bound(e0, e0, 2048, 2048);
            lemma_dot_bound(e1, e1, 2048, 2048);
            lemma_dot_bound(e2, e2, 2048, 2048);
        }
        if t0 >= 0 && !e0.is_zero() {
            let d0 = e0.dot(&v0.v);
            let d1 = e0.sqr_magnitude();
            let t = crate::vector::ratio_fp(d0, d1);
            let p = crate::vector::lerp_pts_fp(&v0.v, &v1.v, t);
            proof {
                lemma_dot_bound(p, p, crate::vector::FP_BOUND as int, crate::vector::FP_BOUND as int);
            }
            let dsq = p.sqr_magnitude();
            EPA2Simplex {
                v0: *v0, v1: *v1, v2: *v2, n: n, p: p, e: e0,
                d0: d0, d1: d1, region: Region::Edge0, d_sqr: dsq,
            }
        } else if t1 >= 0 && !e1.is_zero() {
            let d0 = e1.dot(&v1.v);
            let d1 = e1.sqr_magnitude();
            let t = crate::vector::ratio_fp(d0, d1);
            let p = crate::vector::lerp_pts_fp(&v1.v, &v2.v, t);
            proof {
                lemma_dot_bound(p, p, crate::vector::FP_BOUND as int, crate::vector::FP_BOUND as int);
            }
            let dsq = p.sqr_magnitude();
            EPA2Simplex {
                v0: *v0, v1: *v1, v2: *v2, n: n, p: p, e: e1,
                d0: d0, d1: d1, region: Region::Edge1, d_sqr: dsq,
            }
        } else if t2 >= 0 && !e2.is_zero() {
            let d0 = e2.dot(&v2.v);
            let d1 = e2.sqr_magnitude();
            let t = crate::vector::ratio_fp(d0, d1);
            let p = crate::vector::lerp_pts_fp(&v2.v, &v0.v, t);
            proof {
                lemma_dot_bound(p, p, crate::vector::FP_BOUND as int, crate::vector::FP_BOUND as int);
            }
            let dsq = p.sqr_magnitude();
            EPA2Simplex {
                v0: *v0, v1: *v1, v2: *v2, n: n, p: p, e: e2,
                d0: d0, d1: d1, region: Region::Edge2, d_sqr: dsq,
            }
        } else {
            let p = crate::vector::proj_fp(&n, &v0.v);
            proof {
                lemma_dot_bound(p, p, crate::vector::FP_BOUND as int, crate::vector::FP_BOUND as int);
            }
            let dsq = p.sqr_magnitude();
            EPA2Simplex {
                v0: *v0, v1: *v1, v2: *v2, n: n, p: p, e: e0,
                d0: t0, d1: t1, region: Region::Interior, d_sqr: dsq,
            }
        }
    }
}

/// The translation vector scaled to unit length, in fixed point: each
/// component becomes `v * SCALE / m` (truncating), where `m` is the
/// vector's magnitude; a zero vector is left unchanged.
pub open spec fn normalize_mtv_s(v: Int3, m: int) -> Int3 {
    if m > 0 {
        Int3 {
            x: crate::vector::tdiv_s(v.x * crate::vector::SCALE, m) as i128,
            y: crate::vector::tdiv_s(v.y * crate::vector::SCALE, m) as i128,
            z: crate::vector::tdiv_s(v.z * crate::vector::SCALE, m) as i128,
        }
    } else {
        v
    }
}

/// The four result fields of a frame, as one value, so that contracts
/// can pin them with a single equation.
#[derive(Debug, Clone, Copy, PartialEq, Eq, Structural)]
pub struct FrameResult {
    pub mtv: Int3,
    pub min_dist: i128,
    pub closest_a: Int3,
    pub closest_b: Int3,
}

/// The result fields a frame currently holds.
pub open spec fn results_of(f: Frame3Simplex) -> FrameResult {
    FrameResult { mtv: f.mtv, min_dist: f.min_dist, closest_a: f.closest_a, closest_b: f.closest_b }
}

/// Witness points `ca`, `cb` with the translation vector `pre`,
/// normalized: the recorded distance is the magnitude of `pre` and the
/// vector is scaled to unit length.
pub open spec fn norm_result_s(ca: Int3, cb: Int3, pre: Int3) -> FrameResult {
    let m = crate::vector::isqrt_s(crate::vector::sqr_s(pre));
    FrameResult {
        mtv: normalize_mtv_s(pre, m),
        min_dist: m as i128,
        closest_a: ca,
        closest_b: cb,
    }
}

/// The frame results of the edge-feature reconstruction along the edge
/// from `s0` to `s1`, parameterized by `(d0, d1)`.
pub open spec fn edge_result_s(
    pa: Seq<Int3>,
    pb: Seq<Int3>,
    s0: MinkowskiSumPoint,
    s1: MinkowskiSumPoint,
    d0: int,
    d1: int,
) -> FrameResult {
    let t = crate::vector::ratio_fp_s(d0, d1);
    let ca = crate::vector::lerp_pts_s(pa[s0.a as int], pa[s1.a as int], t);
    let cb = crate::vector::lerp_pts_s(pb[s0.b as int], pb[s1.b as int], t);
    norm_result_s(ca, cb, sub_s(ca, cb))
}

/// The frame results of the face-feature reconstruction for the
/// triangle `(s0, s1, s2)` with plane point `p`.
pub open spec fn face_result_s(
    pa: Seq<Int3>,
    pb: Seq<Int3>,
    s0: MinkowskiSumPoint,
    s1: MinkowskiSumPoint,
    s2: MinkowskiSumPoint,
    p: Int3,
) -> FrameResult {
    let s0f = crate::vector::fp_of_s(s0.v);
    let s1f = crate::vector::fp_of_s(s1.v);
    let s2f = crate::vector::fp_of_s(s2.v);
    let e0 = sub_s(s1f, s0f);
    let n0 = cross_s(p, sub_s(p, s2f));
    let t = crate::vector::ratio_fp_s(dot_s(n0, sub_s(s0f, s2f)), -dot_s(n0, e0));
    let e1 = crate::vector::lerp_pts_s(pa[s0.a as int], pa[s1.a as int], t);
    let e2 = crate::vector::lerp_pts_s(pb[s0.b as int], pb[s1.b as int], t);
    let pe = crate::vector::lerp_pts_s(s0.v, s1.v, t);
    let nb = sub_s(pe, s2f);
    let t2 = crate::vector::ratio_fp_s(dot_s(pe, nb), crate::vector::sqr_s(nb));
    let ca = crate::vector::lerp_fp_s(e1, crate::vector::fp_of_s(pa[s2.a as int]), t2);
    let cb = crate::vector::lerp_fp_s(e2, crate::vector::fp_of_s(pb[s2.b as int]), t2);
    let m = crate::vector::isqrt_s(crate::vector::sqr_s(p));
    FrameResult {
        mtv: normalize_mtv_s(p, m),
        min_dist: m as i128,
        closest_a: ca,
        closest_b: cb,
    }
}

/// The frame results extracted from a converged polytope face, by its
/// closest-point region.
pub open spec fn epa_extract_s(pa: Seq<Int3>, pb: Seq<Int3>, e: EPA2Simplex) -> FrameResult {
    match e.region {
        Region::Edge0 => edge_result_s(pa, pb, e.v0, e.v1, e.d0 as int, e.d1 as int),
        Region::Edge1 => edge_result_s(pa, pb, e.v1, e.v2, e.d0 as int, e.d1 as int),
        Region::Edge2 => edge_result_s(pa, pb, e.v2, e.v0, e.d0 as int, e.d1 as int),
        Region::Interior => face_result_s(pa, pb, e.v0, e.v1, e.v2, e.p),
    }
}

/// The frame's result fields are well formed: the cached triangle is
/// made of valid support points and the numeric results are in range.
pub open spec fn frame_result_wf(f: Frame3Simplex, pa: Seq<Int3>, pb: Seq<Int3>) -> bool {
    &&& valid_point(f.s0, pa, pb)
    &&& valid_point(f.s1, pa, pb)
    &&& valid_point(f.s2, pa, pb)
    &&& f.min_dist >= 0
    &&& in_bound(f.mtv, 0x40000000000000)
    &&& in_bound(f.closest_a, 19327352832)
    &&& in_bound(f.closest_b, 19327352832)
    &&& exists|pre: Int3|
        crate::vector::is_isqrt(#[trigger] crate::vector::sqr_s(pre), f.min_dist as int)
            && f.mtv == normalize_mtv_s(pre, f.min_dist as int)
}

impl Frame3Simplex {
    /// Record the magnitude of the translation vector and scale the
    /// vector itself to unit length (fixed point, truncating).
    fn normalize(&mut self)
        requires
            in_bound(old(self).mtv, 12884901888),
        ensures
            crate::vector::is_isqrt(crate::vector::sqr_s(old(self).mtv), final(self).min_dist as int),
            final(self).min_dist as int == crate::vector::isqrt_s(crate::vector::sqr_s(old(self).mtv)),
            final(self).mtv == normalize_mtv_s(old(self).mtv, final(self).min_dist as int),
            final(self).min_dist >= 0,
            in_bound(final(self).mtv, 0x40000000000000),
            final(self).s0 == old(self).s0,
            final(self).s1 == old(self).s1,
            final(self).s2 == old(self).s2,
            final(self).closest_a == old(self).closest_a,
            final(self).closest_b == old(self).closest_b,
            final(self).cache_epa == old(self).cache_epa,
            final(self).candidate_a == old(self).candidate_a,
            final(self).candidate_b == old(self).candidate_b,
    {
        proof {
            lemma_dot_bound(
                self.mtv,
                self.mtv,
                12884901888,
                12884901888,
            );
        }
        let dsq = self.mtv.sqr_magnitude();
        let m = crate::vector::isqrt(dsq);
        proof {
            crate::vector::lemma_isqrt_is(dsq as int, m as int);
        }
        self.min_dist = m;
        if m > 0 {
            proof {
                lemma_mul_bound(
                    self.mtv.x as int,
                    crate::vector::SCALE as int,
                    12884901888,
                    crate::vector::SCALE as int,
                );
                lemma_mul_bound(
                    self.mtv.y as int,
                    crate::vector::SCALE as int,
                    12884901888,
                    crate::vector::SCALE as int,
                );
                lemma_mul_bound(
                    self.mtv.z as int,
                    crate::vector::SCALE as int,
                    12884901888,
                    crate::vector::SCALE as int,
                );
                crate::vector::lemma_tdiv_bound(
                    self.mtv.x * crate::vector::SCALE,
                    m as int,
                    0x40000000000000,
                );
                crate::vector::lemma_tdiv_bound(
                    self.mtv.y * crate::vector::SCALE,
                    m as int,
                    0x40000000000000,
                );
                crate::vector::lemma_tdiv_bound(
                    self.mtv.z * crate::vector::SCALE,
                    m as int,
                    0x40000000000000,
                );
            }
            self.mtv = Int3 {
                x: crate::vector::tdiv(self.mtv.x * crate::vector::SCALE, m),
                y: crate::vector::tdiv(self.mtv.y * crate::vector::SCALE, m),
                z: crate::vector::tdiv(self.mtv.z * crate::vector::SCALE, m),
            };
        }
    }

    /// Edge-feature result from an already computed parameterization:
    /// the witness points are the clamped interpolations of the edge's
    /// end vertices on each shape, the translation vector is their
    /// difference, normalized, with its magnitude in `min_dist`.
    fn mtv_from_edge_case_precomputed(
        &mut self,
        polya: &Vec<Int3>,
        polyb: &Vec<Int3>,
        s0: &MinkowskiSumPoint,
        s1: &MinkowskiSumPoint,
        d0: i128,
        d1: i128,
    )
        requires
            poly_ok(polya@),
            poly_ok(polyb@),
            valid_point(*s0, polya@, polyb@),
            valid_point(*s1, polya@, polyb@),
            -crate::vector::RATIO_LIMIT <= d0 <= crate::vector::RATIO_LIMIT,
            d1 <= crate::vector::RATIO_LIMIT,
        ensures
            ({
                let t = crate::vector::ratio_fp_s(d0 as int, d1 as int);
                let ca = crate::vector::lerp_pts_s(polya@[s0.a as int], polya@[s1.a as int], t);
                let cb = crate::vector::lerp_pts_s(polyb@[s0.b as int], polyb@[s1.b as int], t);
                let pre = sub_s(ca, cb);
                &&& final(self).closest_a == ca
                &&& final(self).closest_b == cb
                &&& crate::vector::is_isqrt(crate::vector::sqr_s(pre), final(self).min_dist as int)
                &&& final(self).mtv == normalize_mtv_s(pre, final(self).min_dist as int)
            }),
            results_of(*final(self)) == edge_result_s(polya@, polyb@, *s0, *s1, d0 as int, d1 as int),
            final(self).min_dist >= 0,
            in_bound(final(self).mtv, 0x40000000000000),
            in_bound(final(self).closest_a, crate::vector::FP_BOUND as int),
            in_bound(final(self).closest_b, crate::vector::FP_BOUND as int),
            final(self).s0 == old(self).s0,
            final(self).s1 == old(self).s1,
            final(self).s2 == old(self).s2,
            final(self).cache_epa == old(self).cache_epa,
            final(self).candidate_a == old(self).candidate_a,
            final(self).candidate_b == old(self).candidate_b,
    {
        let t = crate::vector::ratio_fp(d0, d1);
        proof {
            assert(in_bound(polya@[s0.a as int], COORD_LIMIT as int));
            assert(in_bound(polya@[s1.a as int], COORD_LIMIT as int));
            assert(in_bound(polyb@[s0.b as int], COORD_LIMIT as int));
            assert(in_bound(polyb@[s1.b as int], COORD_LIMIT as int));
        }
        let ca = crate::vector::lerp_pts_fp(&polya[s0.a], &polya[s1.a], t);
        let cb = crate::vector::lerp_pts_fp(&polyb[s0.b], &polyb[s1.b], t);
        self.closest_a = ca;
        self.closest_b = cb;
        self.mtv = ca.sub(&cb);
        self.normalize();
    }

    /// Edge-feature result for the separated case: the edge is
    /// parameterized by `(s0.v . e, |e|^2)` with `e = s1.v - s0.v`, then
    /// handled as the precomputed edge case.
    fn mtv_from_edge_case(
        &mut self,
        s0: &MinkowskiSumPoint,
        s1: &MinkowskiSumPoint,
        polya: &Vec<Int3>,
        polyb: &Vec<Int3>,
    )
        requires
            poly_ok(polya@),
            poly_ok(polyb@),
            valid_point(*s0, polya@, polyb@),
            valid_point(*s1, polya@, polyb@),
        ensures
            ({
                let e = sub_s(s1.v, s0.v);
                let t = crate::vector::ratio_fp_s(dot_s(s0.v, e), crate::vector::sqr_s(e));
                let ca = crate::vector::lerp_pts_s(polya@[s0.a as int], polya@[s1.a as int], t);
                let cb = crate::vector::lerp_pts_s(polyb@[s0.b as int], polyb@[s1.b as int], t);
                let pre = sub_s(ca, cb);
                &&& final(self).closest_a == ca
                &&& final(self).closest_b == cb
                &&& crate::vector::is_isqrt(crate::vector::sqr_s(pre), final(self).min_dist as int)
                &&& final(self).mtv == normalize_mtv_s(pre, final(self).min_dist as int)
            }),
            results_of(*final(self)) == edge_result_s(
                polya@,
                polyb@,
                *s0,
                *s1,
                dot_s(s0.v, sub_s(s1.v, s0.v)),
                crate::vector::sqr_s(sub_s(s1.v, s0.v)),
            ),
            final(self).min_dist >= 0,
            in_bound(final(self).mtv, 0x40000000000000),
            in_bound(final(self).closest_a, crate::vector::FP_BOUND as int),
            in_bound(final(self).closest_b, crate::vector::FP_BOUND as int),
            final(self).s0 == old(self).s0,
            final(self).s1 == old(self).s1,
            final(self).s2 == old(self).s2,
            final(self).cache_epa == old(self).cache_epa,
            final(self).candidate_a == old(self).candidate_a,
            final(self).candidate_b == old(self).candidate_b,
    {
        proof {
            lemma_point_bound(*s0, polya@, polyb@);
            lemma_point_bound(*s1, polya@, polyb@);
            lemma_dot_bound(s0.v, sub_s(s1.v, s0.v), 1024, 2048);
            lemma_dot_bound(
                sub_s(s1.v, s0.v),
                sub_s(s1.v, s0.v),
                2048,
                2048,
            );
        }
        let e = s1.v.sub(&s0.v);
        let d0 = s0.v.dot(&e);
        let d1 = e.sqr_magnitude();
        self.mtv_from_edge_case_precomputed(polya, polyb, s0, s1, d0, d1);
    }

    /// Face-feature result: `p` is the point of the face's plane
    /// closest to the origin; it becomes the translation vector, and
    /// the witness points are rebuilt barycentrically from the cached
    /// triangle (first across the edge `s0-s1`, then toward `s2`).
    fn mtv_from_face_case(&mut self, p: &Int3, polya: &Vec<Int3>, polyb: &Vec<Int3>)
        requires
            poly_ok(polya@),
            poly_ok(polyb@),
            valid_point(old(self).s0, polya@, polyb@),
            valid_point(old(self).s1, polya@, polyb@),
            valid_point(old(self).s2, polya@, polyb@),
            in_bound(*p, crate::vector::FP_BOUND as int),
        ensures
            ({
                let s0f = crate::vector::fp_of_s(old(self).s0.v);
                let s1f = crate::vector::fp_of_s(old(self).s1.v);
                let s2f = crate::vector::fp_of_s(old(self).s2.v);
                let e0 = sub_s(s1f, s0f);
                let n0 = cross_s(*p, sub_s(*p, s2f));
                let t = crate::vector::ratio_fp_s(
                    dot_s(n0, sub_s(s0f, s2f)),
                    -dot_s(n0, e0),
                );
                let e1 = crate::vector::lerp_pts_s(
                    polya@[old(self).s0.a as int],
                    polya@[old(self).s1.a as int],
                    t,
                );
                let e2 = crate::vector::lerp_pts_s(
                    polyb@[old(self).s0.b as int],
                    polyb@[old(self).s1.b as int],
                    t,
                );
                let pe = crate::vector::lerp_pts_s(old(self).s0.v, old(self).s1.v, t);
                let nb = sub_s(pe, s2f);
                let t2 = crate::vector::ratio_fp_s(dot_s(pe, nb), crate::vector::sqr_s(nb));
                &&& final(self).closest_a == crate::vector::lerp_fp_s(
                    e1,
                    crate::vector::fp_of_s(polya@[old(self).s2.a as int]),
                    t2,
                )
                &&& final(self).closest_b == crate::vector::lerp_fp_s(
                    e2,
                    crate::vector::fp_of_s(polyb@[old(self).s2.b as int]),
                    t2,
                )
                &&& crate::vector::is_isqrt(crate::vector::sqr_s(*p), final(self).min_dist as int)
                &&& final(self).mtv == normalize_mtv_s(*p, final(self).min_dist as int)
            }),
            results_of(*final(self)) == face_result_s(
                polya@,
                polyb@,
                old(self).s0,
                old(self).s1,
                old(self).s2,
                *p,
            ),
            final(self).min_dist >= 0,
            in_bound(final(self).mtv, 0x40000000000000),
            in_bound(final(self).closest_a, 19327352832),
            in_bound(final(self).closest_b, 19327352832),
            final(self).s0 == old(self).s0,
            final(self).s1 == old(self).s1,
            final(self).s2 == old(self).s2,
            final(self).cache_epa == old(self).cache_epa,
            final(self).candidate_a == old(self).candidate_a,
            final(self).candidate_b == old(self).candidate_b,
    {
        proof {
            lemma_point_bound(old(self).s0, polya@, polyb@);
            lemma_point_bound(old(self).s1, polya@, polyb@);
            lemma_point_bound(old(self).s2, polya@, polyb@);
        }
        self.mtv = *p;
        let s0f = crate::vector::fp_of(&self.s0.v);
        let s1f = crate::vector::fp_of(&self.s1.v);
        let s2f = crate::vector::fp_of(&self.s2.v);
        let e0 = s1f.sub(&s0f);
        proof {
            lemma_cross_bound(
                *p,
                sub_s(*p, crate::vector::fp_of_s(old(self).s2.v)),
                crate::vector::FP_BOUND as int,
                12884901888,
            );
            lemma_dot_bound(
                cross_s(*p, sub_s(*p, crate::vector::fp_of_s(old(self).s2.v))),
                sub_s(crate::vector::fp_of_s(old(self).s0.v), crate::vector::fp_of_s(old(self).s2.v)),
                166020696663385964544,
                12884901888,
            );
            lemma_dot_bound(
                cross_s(*p, sub_s(*p, crate::vector::fp_of_s(old(self).s2.v))),
                sub_s(crate::vector::fp_of_s(old(self).s1.v), crate::vector::fp_of_s(old(self).s0.v)),
                166020696663385964544,
                12884901888,
            );
        }
        let n0 = p.cross(&p.sub(&s2f));
        let d0 = n0.dot(&s0f.sub(&s2f));
        let d1 = -(n0.dot(&e0));
        let t = crate::vector::ratio_fp(d0, d1);
        proof {
            assert(in_bound(polya@[old(self).s0.a as int], COORD_LIMIT as int));
            assert(in_bound(polya@[old(self).s1.a as int], COORD_LIMIT as int));
            assert(in_bound(polya@[old(self).s2.a as int], COORD_LIMIT as int));
            assert(in_bound(polyb@[old(self).s0.b as int], COORD_LIMIT as int));
            assert(in_bound(polyb@[old(self).s1.b as int], COORD_LIMIT as int));
            assert(in_bound(polyb@[old(self).s2.b as int], COORD_LIMIT as int));
        }
        let e1 = crate::vector::lerp_pts_fp(&polya[self.s0.a], &polya[self.s1.a], t);
        let e2 = crate::vector::lerp_pts_fp(&polyb[self.s0.b], &polyb[self.s1.b], t);
        let pe = crate::vector::lerp_pts_fp(&self.s0.v, &self.s1.v, t);
        let nb = pe.sub(&s2f);
        proof {
            lemma_dot_bound(
                crate::vector::lerp_pts_s(old(self).s0.v, old(self).s1.v, crate::vector::ratio_fp_s(d0 as int, d1 as int)),
                sub_s(
                    crate::vector::lerp_pts_s(old(self).s0.v, old(self).s1.v, crate::vector::ratio_fp_s(d0 as int, d1 as int)),
                    crate::vector::fp_of_s(old(self).s2.v),
                ),
                crate::vector::FP_BOUND as int,
                12884901888,
            );
            lemma_dot_bound(
                sub_s(
                    crate::vector::lerp_pts_s(old(self).s0.v, old(self).s1.v, crate::vector::ratio_fp_s(d0 as int, d1 as int)),
                    crate::vector::fp_of_s(old(self).s2.v),
                ),
                sub_s(
                    crate::vector::lerp_pts_s(old(self).s0.v, old(self).s1.v, crate::vector::ratio_fp_s(d0 as int, d1 as int)),
                    crate::vector::fp_of_s(old(self).s2.v),
                ),
                12884901888,
                12884901888,
            );
        }
        let db0 = pe.dot(&nb);
        let db1 = nb.sqr_magnitude();
        let t2 = crate::vector::ratio_fp(db0, db1);
        let a2 = crate::vector::fp_of(&polya[self.s2.a]);
        let b2 = crate::vector::fp_of(&polyb[self.s2.b]);
        self.closest_a = crate::vector::lerp_fp(&e1, &a2, t2);
        self.closest_b = crate::vector::lerp_fp(&e2, &b2, t2);
        self.normalize();
    }

    /// Extract the result from a converged polytope face: edge regions
    /// interpolate along the winning edge with the face's precomputed
    /// parameterization, the interior region reconstructs from the
    /// face's closest point.
    pub fn mtv_from_epa(&mut self, e: &EPA2Simplex, polya: &Vec<Int3>, polyb: &Vec<Int3>)
        requires
            poly_ok(polya@),
            poly_ok(polyb@),
            face_wf(*e, polya@, polyb@),
        ensures
            final(self).s0 == e.v0,
            final(self).s1 == e.v1,
            final(self).s2 == e.v2,
            results_of(*final(self)) == epa_extract_s(polya@, polyb@, *e),
            frame_result_wf(*final(self), polya@, polyb@),
            final(self).cache_epa == old(self).cache_epa,
            final(self).candidate_a == old(self).candidate_a,
            final(self).candidate_b == old(self).candidate_b,
            e.region == Region::Interior ==> crate::vector::is_isqrt(
                crate::vector::sqr_s(e.p),
                final(self).min_dist as int,
            ) && final(self).mtv == normalize_mtv_s(e.p, final(self).min_dist as int),
            e.region == Region::Edge0 ==> ({
                let t = crate::vector::ratio_fp_s(e.d0 as int, e.d1 as int);
                let ca = crate::vector::lerp_pts_s(polya@[e.v0.a as int], polya@[e.v1.a as int], t);
                let cb = crate::vector::lerp_pts_s(polyb@[e.v0.b as int], polyb@[e.v1.b as int], t);
                final(self).closest_a == ca && final(self).closest_b == cb && final(self).mtv == normalize_mtv_s(
                    sub_s(ca, cb),
                    final(self).min_dist as int,
                )
            }),
            e.region == Region::Edge1 ==> ({
                let t = crate::vector::ratio_fp_s(e.d0 as int, e.d1 as int);
                let ca = crate::vector::lerp_pts_s(polya@[e.v1.a as int], polya@[e.v2.a as int], t);
                let cb = crate::vector::lerp_pts_s(polyb@[e.v1.b as int], polyb@[e.v2.b as int], t);
                final(self).closest_a == ca && final(self).closest_b == cb && final(self).mtv == normalize_mtv_s(
                    sub_s(ca, cb),
                    final(self).min_dist as int,
                )
            }),
            e.region == Region::Edge2 ==> ({
                let t = crate::vector::ratio_fp_s(e.d0 as int, e.d1 as int);
                let ca = crate::vector::lerp_pts_s(polya@[e.v2.a as int], polya@[e.v0.a as int], t);
                let cb = crate::vector::lerp_pts_s(polyb@[e.v2.b as int], polyb@[e.v0.b as int], t);
                final(self).closest_a == ca && final(self).closest_b == cb && final(self).mtv == normalize_mtv_s(
                    sub_s(ca, cb),
                    final(self).min_dist as int,
                )
            }),
    {
        let v0 = e.v0;
        let v1 = e.v1;
        let v2 = e.v2;
        self.s0 = v0;
        self.s1 = v1;
        self.s2 = v2;
        match e.region {
            Region::Edge0 => {
                self.mtv_from_edge_case_precomputed(polya, polyb, &v0, &v1, e.d0, e.d1);
            },
            Region::Edge1 => {
                self.mtv_from_edge_case_precomputed(polya, polyb, &v1, &v2, e.d0, e.d1);
            },
            Region::Edge2 => {
                self.mtv_from_edge_case_precomputed(polya, polyb, &v2, &v0, e.d0, e.d1);
            },
            Region::Interior => {
                self.mtv_from_face_case(&e.p, polya, polyb);
            },
        }
    }
}

/// The in-plane projection of the origin lies strictly inside all
/// three edges of the triangle for search direction `d`: the face
/// region of the nearest-feature classification wins immediately.
pub open spec fn face_entry_cond(
    s0: MinkowskiSumPoint,
    s1: MinkowskiSumPoint,
    s2: MinkowskiSumPoint,
    d: Int3,
) -> bool {
    &&& -dot_s(cross_s(d, sub_s(s1.v, s0.v)), s0.v) < 0
    &&& -dot_s(cross_s(d, sub_s(s2.v, s1.v)), s1.v) < 0
    &&& -dot_s(cross_s(d, sub_s(s0.v, s2.v)), s2.v) < 0
}

/// The edge reconstruction along the cached edge from `si` to `sj`,
/// parameterized as the classification parameterizes it.
pub open spec fn edge_result_of(
    pa: Seq<Int3>,
    pb: Seq<Int3>,
    si: MinkowskiSumPoint,
    sj: MinkowskiSumPoint,
) -> FrameResult {
    edge_result_s(
        pa,
        pb,
        si,
        sj,
        dot_s(si.v, sub_s(sj.v, si.v)),
        crate::vector::sqr_s(sub_s(sj.v, si.v)),
    )
}

/// The frame's results come from its cached triangle: the face
/// reconstruction for direction `dv`, or the edge reconstruction of
/// one of the triangle's three edges.
pub open spec fn classified_by_cached(
    f: Frame3Simplex,
    pa: Seq<Int3>,
    pb: Seq<Int3>,
    dv: Int3,
) -> bool {
    ||| results_of(f) == face_result_s(pa, pb, f.s0, f.s1, f.s2, crate::vector::proj_fp_s(dv, f.s0.v))
    ||| results_of(f) == edge_result_of(pa, pb, f.s0, f.s1)
    ||| results_of(f) == edge_result_of(pa, pb, f.s1, f.s2)
    ||| results_of(f) == edge_result_of(pa, pb, f.s2, f.s0)
}

/// The outcome of the classification's first iteration when the entry
/// triangle alone decides it: the face region, or the first edge whose
/// signed distance is non-negative, whose edge normal passes the zero
/// test, and which is exactly on the feature (`t == 0`) or past which
/// no tied support point lies.  `None` when the first iteration
/// replaces a vertex instead of classifying.
pub open spec fn entry_class_s(
    pa: Seq<Int3>,
    pb: Seq<Int3>,
    ca: Seq<usize>,
    cb: Seq<usize>,
    s0: MinkowskiSumPoint,
    s1: MinkowskiSumPoint,
    s2: MinkowskiSumPoint,
    d: Int3,
) -> Option<FrameResult> {
    let n0 = cross_s(d, sub_s(s1.v, s0.v));
    let n1 = cross_s(d, sub_s(s2.v, s1.v));
    let n2 = cross_s(d, sub_s(s0.v, s2.v));
    let t0 = -dot_s(n0, s0.v);
    let t1 = -dot_s(n1, s1.v);
    let t2 = -dot_s(n2, s2.v);
    if face_entry_cond(s0, s1, s2, d) {
        Some(face_result_s(pa, pb, s0, s1, s2, crate::vector::proj_fp_s(d, s0.v)))
    } else if t0 >= 0 && !(n0.x == 0 && n0.y == 0) {
        if t0 == 0 || !better_exists(pa, pb, ca, cb, n0, s1.v) {
            Some(edge_result_of(pa, pb, s0, s1))
        } else {
            None
        }
    } else if t1 >= 0 && !(n1.x == 0 && n1.y == 0) {
        if t1 == 0 || !better_exists(pa, pb, ca, cb, n1, s0.v) {
            Some(edge_result_of(pa, pb, s1, s2))
        } else {
            None
        }
    } else if t2 >= 0 && !(n2.x == 0 && n2.y == 0) {
        if t2 == 0 || !better_exists(pa, pb, ca, cb, n2, s0.v) {
            Some(edge_result_of(pa, pb, s2, s0))
        } else {
            None
        }
    } else {
        None
    }
}

/// Walk the triangle toward the feature of the Minkowski difference
/// nearest the origin and classify it.  The face region wins when the
/// origin's in-plane projection is strictly inside all three edges; an
/// edge wins when its signed distance is non-negative and either
/// exactly zero or no tied support point lies beyond it; otherwise the
/// better support point replaces the opposite vertex and the search
/// continues, at most 16 times.
#[verifier::rlimit(100)]
pub fn calculate_mtv_from_nearest_feature(
    polya: &Vec<Int3>,
    polyb: &Vec<Int3>,
    f: &mut Frame3Simplex,
    s0: MinkowskiSumPoint,
    s1: MinkowskiSumPoint,
    s2: MinkowskiSumPoint,
    d: &Int3,
) -> (r: Result<bool, Error>)
    requires
        poly_ok(polya@),
        poly_ok(polyb@),
        valid_point(s0, polya@, polyb@),
        valid_point(s1, polya@, polyb@),
        valid_point(s2, polya@, polyb@),
        in_bound(*d, DIR_LIMIT as int),
        cands_ok(*old(f), polya@, polyb@),
    ensures
        r == Ok::<bool, Error>(false) || r == Err::<bool, Error>(Error::NearestFeatureSearch),
        r == Ok::<bool, Error>(false) ==> frame_result_wf(*final(f), polya@, polyb@),
        ({
            let ec = entry_class_s(
                polya@,
                polyb@,
                old(f).candidate_a@,
                old(f).candidate_b@,
                s0,
                s1,
                s2,
                *d,
            );
            ec is Some ==> r == Ok::<bool, Error>(false) && final(f).s0 == s0 && final(f).s1
                == s1 && final(f).s2 == s2 && ec == Some(results_of(*final(f)))
        }),
        r == Ok::<bool, Error>(false) ==> classified_by_cached(*final(f), polya@, polyb@, *d),
        final(f).candidate_a@ == old(f).candidate_a@,
        final(f).candidate_b@ == old(f).candidate_b@,
{
    let ghost s0e = s0;
    let ghost s1e = s1;
    let ghost s2e = s2;
    let ghost cae = f.candidate_a@;
    let ghost cbe = f.candidate_b@;
    let mut c0 = s0;
    let mut c1 = s1;
    let mut c2 = s2;
    let mut iteration: i32 = 0;
    loop
        invariant
            poly_ok(polya@),
            poly_ok(polyb@),
            valid_point(c0, polya@, polyb@),
            valid_point(c1, polya@, polyb@),
            valid_point(c2, polya@, polyb@),
            in_bound(*d, DIR_LIMIT as int),
            cands_ok(*f, polya@, polyb@),
            0 <= iteration < 16,
            s0e == s0 && s1e == s1 && s2e == s2,
            cae == old(f).candidate_a@ && cbe == old(f).candidate_b@,
            f.candidate_a@ == cae && f.candidate_b@ == cbe,
            iteration == 0 ==> c0 == s0e && c1 == s1e && c2 == s2e,
            iteration > 0 ==> entry_class_s(polya@, polyb@, cae, cbe, s0e, s1e, s2e, *d)
                is None,
        decreases 16 - iteration,
    {
        proof {
            lemma_point_bound(c0, polya@, polyb@);
            lemma_point_bound(c1, polya@, polyb@);
            lemma_point_bound(c2, polya@, polyb@);
            lemma_cross_bound(*d, sub_s(c1.v, c0.v), 68719476736, 2048);
            lemma_cross_bound(*d, sub_s(c2.v, c1.v), 68719476736, 2048);
            lemma_cross_bound(*d, sub_s(c0.v, c2.v), 68719476736, 2048);
            lemma_dot_bound(
                cross_s(*d, sub_s(c1.v, c0.v)),
                c0.v,
                281474976710656,
                DIFF_LIMIT as int,
            );
            lemma_dot_bound(
                cross_s(*d, sub_s(c2.v, c1.v)),
                c1.v,
                281474976710656,
                DIFF_LIMIT as int,
            );
            lemma_dot_bound(
                cross_s(*d, sub_s(c0.v, c2.v)),
                c2.v,
                281474976710656,
                DIFF_LIMIT as int,
            );
        }
        let n0 = d.cross(&c1.v.sub(&c0.v));
        let n1 = d.cross(&c2.v.sub(&c1.v));
        let n2 = d.cross(&c0.v.sub(&c2.v));
        let d0 = -(n0.dot(&c0.v));
        let d1 = -(n1.dot(&c1.v));
        let d2 = -(n2.dot(&c2.v));
        proof {
            if iteration == 0 {
                assert(face_entry_cond(s0e, s1e, s2e, *d) <==> (d0 < 0 && d1 < 0 && d2 < 0));
            }
        }
        if d0 < 0 && d1 < 0 && d2 < 0 {
            f.cache(c0, c1, c2);
            let p = crate::vector::proj_fp(d, &c0.v);
            f.mtv_from_face_case(&p, polya, polyb);
            proof {
                if face_entry_cond(s0e, s1e, s2e, *d) {
                    assert(iteration == 0);
                    assert(c0 == s0e && c1 == s1e && c2 == s2e);
                    assert(f.s0 == s0e && f.s1 == s1e && f.s2 == s2e);
                    assert(p == crate::vector::proj_fp_s(*d, s0e.v));
                    assert(results_of(*f) == face_result_s(polya@, polyb@, s0e, s1e, s2e, p));
                    assert(entry_class_s(polya@, polyb@, cae, cbe, s0e, s1e, s2e, *d) == Some(
                        results_of(*f),
                    ));
                }
                assert(results_of(*f) == face_result_s(
                    polya@,
                    polyb@,
                    f.s0,
                    f.s1,
                    f.s2,
                    crate::vector::proj_fp_s(*d, f.s0.v),
                ));
            }
            return Ok(false);
        }
        proof {
            if iteration == 0 {
                assert(!face_entry_cond(s0e, s1e, s2e, *d));
            }
        }
        if d0 >= 0 && !n0.is_zero() {
            let done = if d0 == 0 {
                true
            } else {
                !better_support_in_candidate(polya, polyb, &n0, &mut c1, &mut c2, f)
            };
            if done {
                f.mtv_from_edge_case(&c0, &c1, polya, polyb);
                f.cache(c0, c1, c2);
                proof {
                    assert(results_of(*f) == edge_result_of(polya@, polyb@, f.s0, f.s1));
                    if iteration == 0 {
                        assert(entry_class_s(polya@, polyb@, cae, cbe, s0e, s1e, s2e, *d)
                            == Some(edge_result_of(polya@, polyb@, s0e, s1e)));
                    }
                }
                return Ok(false);
            }
        }
        if d1 >= 0 && !n1.is_zero() {
            let done = if d1 == 0 {
                true
            } else {
                !better_support_in_candidate(polya, polyb, &n1, &mut c0, &mut c2, f)
            };
            if done {
                f.mtv_from_edge_case(&c1, &c2, polya, polyb);
                f.cache(c0, c1, c2);
                proof {
                    assert(results_of(*f) == edge_result_of(polya@, polyb@, f.s1, f.s2));
                    if iteration == 0 && entry_class_s(
                        polya@,
                        polyb@,
                        cae,
                        cbe,
                        s0e,
                        s1e,
                        s2e,
                        *d,
                    ) is Some {
                        assert(c0 == s0e && c1 == s1e && c2 == s2e);
                        assert(entry_class_s(polya@, polyb@, cae, cbe, s0e, s1e, s2e, *d)
                            == Some(edge_result_of(polya@, polyb@, s1e, s2e)));
                    }
                }
                return Ok(false);
            }
        }
        if d2 >= 0 && !n2.is_zero() {
            let done = if d2 == 0 {
                true
            } else {
                !better_support_in_candidate(polya, polyb, &n2, &mut c0, &mut c1, f)
            };
            if done {
                f.mtv_from_edge_case(&c2, &c0, polya, polyb);
                f.cache(c0, c1, c2);
                proof {
                    assert(results_of(*f) == edge_result_of(polya@, polyb@, f.s2, f.s0));
                    if iteration == 0 && entry_class_s(
                        polya@,
                        polyb@,
                        cae,
                        cbe,
                        s0e,
                        s1e,
                        s2e,
                        *d,
                    ) is Some {
                        assert(c0 == s0e && c1 == s1e && c2 == s2e);
                        assert(entry_class_s(polya@, polyb@, cae, cbe, s0e, s1e, s2e, *d)
                            == Some(edge_result_of(polya@, polyb@, s2e, s0e)));
                    }
                }
                return Ok(false);
            }
        }
        proof {
            if iteration == 0 {
                assert(entry_class_s(polya@, polyb@, cae, cbe, s0e, s1e, s2e, *d) is None);
            }
        }
        iteration = iteration + 1;
        if iteration >= 16 {
            return Err(Error::NearestFeatureSearch);
        }
    }
}

/// Law: the support query is symmetric in the two shapes.  Swapping the
/// shapes and negating the direction leaves the extremality conditions
/// on a pair of vertex indices unchanged, negates the Minkowski vertex,
/// and preserves its squared length (so the tie-resolving minimality is
/// preserved too): the swapped query admits exactly the swapped pairs.
pub proof fn lemma_support_symmetric(pa: Seq<Int3>, pb: Seq<Int3>, d: Int3, a: int, b: int)
    requires
        poly_ok(pa),
        poly_ok(pb),
        in_bound(d, DIR_LIMIT as int),
        0 <= a < pa.len(),
        0 <= b < pb.len(),
    ensures
        neg_s(neg_s(d)) == d,
        is_max(pa, neg_s(neg_s(d)), a) == is_max(pa, d, a),
        sub_s(pb[b], pa[a]) == neg_s(sub_s(pa[a], pb[b])),
        crate::vector::sqr_s(neg_s(sub_s(pa[a], pb[b]))) == crate::vector::sqr_s(
            sub_s(pa[a], pb[b]),
        ),
{
    assert(neg_s(neg_s(d)) == d);
    assert(in_bound(pa[a], COORD_LIMIT as int));
    assert(in_bound(pb[b], COORD_LIMIT as int));
    let v = sub_s(pa[a], pb[b]);
    assert(crate::vector::sqr_s(neg_s(v)) == crate::vector::sqr_s(v)) by (nonlinear_arith)
        requires
            in_bound(v, 1024),
            neg_s(v).x == -v.x && neg_s(v).y == -v.y && neg_s(v).z == -v.z,
    ;
}

/// `r` is the support point of the shape pair in direction `d`:
/// extremal in each shape, of minimal squared length among all tied
/// pairs, and first in index order among the minimal ones.
pub open spec fn support_post(
    pa: Seq<Int3>,
    pb: Seq<Int3>,
    d: Int3,
    r: MinkowskiSumPoint,
) -> bool {
    &&& valid_point(r, pa, pb)
    &&& is_max(pa, d, r.a as int)
    &&& is_max(pb, neg_s(d), r.b as int)
    &&& forall|i: usize, j: usize|
        i < pa.len() && j < pb.len() && is_max(pa, d, i as int) && is_max(pb, neg_s(d), j as int)
            ==> crate::vector::sqr_s(sub_s(#[trigger] pa[i as int], #[trigger] pb[j as int]))
            >= crate::vector::sqr_s(r.v)
    &&& forall|i: usize, j: usize|
        i < pa.len() && j < pb.len() && is_max(pa, d, i as int) && is_max(pb, neg_s(d), j as int)
            && crate::vector::sqr_s(sub_s(#[trigger] pa[i as int], #[trigger] pb[j as int]))
            == crate::vector::sqr_s(r.v) ==> (r.a < i || (r.a == i && r.b <= j))
}

/// The support point of the shape pair in direction `d` (the unique
/// point satisfying `support_post`).
pub open spec fn support_s(pa: Seq<Int3>, pb: Seq<Int3>, d: Int3) -> MinkowskiSumPoint {
    choose|r: MinkowskiSumPoint| support_post(pa, pb, d, r)
}

/// Law: the support query's contract pins its result.  Any two support
/// points that are both minimal in squared length over all tied pairs,
/// and both first in index order among the minimal pairs, are the same
/// point; with identical inputs the query can answer only one way.
pub proof fn lemma_support_unique(
    pa: Seq<Int3>,
    pb: Seq<Int3>,
    d: Int3,
    r1: MinkowskiSumPoint,
    r2: MinkowskiSumPoint,
)
    requires
        support_post(pa, pb, d, r1),
        support_post(pa, pb, d, r2),
    ensures
        r1.a == r2.a,
        r1.b == r2.b,
        r1.v == r2.v,
        r1 == r2,
{
    assert(crate::vector::sqr_s(sub_s(pa[r2.a as int], pb[r2.b as int]))
        >= crate::vector::sqr_s(r1.v));
    assert(crate::vector::sqr_s(sub_s(pa[r1.a as int], pb[r1.b as int]))
        >= crate::vector::sqr_s(r2.v));
    assert(crate::vector::sqr_s(r1.v) == crate::vector::sqr_s(r2.v));
    assert(r1.a < r2.a || (r1.a == r2.a && r1.b <= r2.b));
    assert(r2.a < r1.a || (r2.a == r1.a && r2.b <= r1.b));
}

/// A point satisfying the support conditions is `support_s`.
pub proof fn lemma_support_s_is(pa: Seq<Int3>, pb: Seq<Int3>, d: Int3, r: MinkowskiSumPoint)
    requires
        support_post(pa, pb, d, r),
    ensures
        r == support_s(pa, pb, d),
{
    assert(support_post(pa, pb, d, support_s(pa, pb, d)));
    lemma_support_unique(pa, pb, d, r, support_s(pa, pb, d));
}

/// Every vertex of the Minkowski difference `A - B` projects strictly
/// negatively onto `d`: the plane through the origin normal to `d`
/// separates the origin from the difference, so the shapes are disjoint.
pub open spec fn separating_dir(d: Int3, pa: Seq<Int3>, pb: Seq<Int3>) -> bool {
    forall|i: int, j: int|
        0 <= i < pa.len() && 0 <= j < pb.len() ==> dot_s(sub_s(#[trigger] pa[i], #[trigger] pb[j]), d)
            < 0
}

/// Dot products distribute over componentwise differences.
pub proof fn lemma_dot_sub_linear(a: Int3, b: Int3, d: Int3)
    requires
        in_bound(a, DIFF_LIMIT as int),
        in_bound(b, DIFF_LIMIT as int),
    ensures
        dot_s(sub_s(a, b), d) == dot_s(a, d) - dot_s(b, d),
{
    let s = sub_s(a, b);
    assert(s.x == a.x - b.x && s.y == a.y - b.y && s.z == a.z - b.z);
    assert(dot_s(s, d) == dot_s(a, d) - dot_s(b, d)) by (nonlinear_arith)
        requires
            s.x == a.x - b.x && s.y == a.y - b.y && s.z == a.z - b.z,
    ;
}

/// Negating one side of a dot product negates the product.
pub proof fn lemma_dot_neg(a: Int3, d: Int3)
    requires
        in_bound(d, DIR_LIMIT as int),
    ensures
        dot_s(a, neg_s(d)) == -dot_s(a, d),
{
    let n = neg_s(d);
    assert(n.x == -d.x && n.y == -d.y && n.z == -d.z);
    assert(dot_s(a, n) == -dot_s(a, d)) by (nonlinear_arith)
        requires
            n.x == -d.x && n.y == -d.y && n.z == -d.z,
    ;
}

/// Law: a support point with strictly negative projection certifies
/// separation.  When the Minkowski vertex extremal along `d` projects
/// strictly negatively onto `d`, so does every other vertex of the
/// difference, and `d` is a separating direction.
pub proof fn lemma_separating(pa: Seq<Int3>, pb: Seq<Int3>, d: Int3, s: MinkowskiSumPoint)
    requires
        poly_ok(pa),
        poly_ok(pb),
        in_bound(d, DIR_LIMIT as int),
        valid_point(s, pa, pb),
        is_max(pa, d, s.a as int),
        is_max(pb, neg_s(d), s.b as int),
        dot_s(s.v, d) < 0,
    ensures
        separating_dir(d, pa, pb),
{
    assert forall|i: int, j: int|
        0 <= i < pa.len() && 0 <= j < pb.len() implies dot_s(
        sub_s(#[trigger] pa[i], #[trigger] pb[j]),
        d,
    ) < 0 by {
        assert(in_bound(pa[i], COORD_LIMIT as int));
        assert(in_bound(pb[j], COORD_LIMIT as int));
        assert(in_bound(pa[s.a as int], COORD_LIMIT as int));
        assert(in_bound(pb[s.b as int], COORD_LIMIT as int));
        lemma_dot_sub_linear(pa[i], pb[j], d);
        lemma_dot_sub_linear(pa[s.a as int], pb[s.b as int], d);
        lemma_dot_neg(pb[j], d);
        lemma_dot_neg(pb[s.b as int], d);
        assert(dot_s(pa[i], d) <= dot_s(pa[s.a as int], d));
        assert(dot_s(pb[j], neg_s(d)) <= dot_s(pb[s.b as int], neg_s(d)));
    }
}

/// The plane through `p0` with normal `n` supports the Minkowski
/// difference: no vertex of `A - B` lies strictly beyond it.
pub open spec fn supporting_plane(n: Int3, p0: Int3, pa: Seq<Int3>, pb: Seq<Int3>) -> bool {
    forall|i: int, j: int|
        0 <= i < pa.len() && 0 <= j < pb.len() ==> dot_s(
            sub_s(sub_s(#[trigger] pa[i], #[trigger] pb[j]), p0),
            n,
        ) <= 0
}

/// Law: a converged expansion face is a supporting plane.  When the
/// Minkowski vertex extremal along a face normal `n` does not lie
/// strictly beyond the face's first vertex `p0`, no vertex of the
/// difference does: the polytope stopped expanding at the hull.
pub proof fn lemma_supporting_plane(
    pa: Seq<Int3>,
    pb: Seq<Int3>,
    n: Int3,
    p0: Int3,
    s: MinkowskiSumPoint,
)
    requires
        poly_ok(pa),
        poly_ok(pb),
        in_bound(n, DIR_LIMIT as int),
        in_bound(p0, DIFF_LIMIT as int),
        valid_point(s, pa, pb),
        is_max(pa, n, s.a as int),
        is_max(pb, neg_s(n), s.b as int),
        dot_s(sub_s(s.v, p0), n) <= 0,
    ensures
        supporting_plane(n, p0, pa, pb),
{
    assert forall|i: int, j: int|
        0 <= i < pa.len() && 0 <= j < pb.len() implies dot_s(
        sub_s(sub_s(#[trigger] pa[i], #[trigger] pb[j]), p0),
        n,
    ) <= 0 by {
        assert(in_bound(pa[i], COORD_LIMIT as int));
        assert(in_bound(pb[j], COORD_LIMIT as int));
        assert(in_bound(pa[s.a as int], COORD_LIMIT as int));
        assert(in_bound(pb[s.b as int], COORD_LIMIT as int));
        let v = sub_s(pa[i], pb[j]);
        lemma_dot_sub_linear(pa[i], pb[j], n);
        lemma_dot_sub_linear(v, p0, n);
        lemma_dot_sub_linear(pa[s.a as int], pb[s.b as int], n);
        lemma_dot_sub_linear(s.v, p0, n);
        lemma_dot_neg(pb[j], n);
        lemma_dot_neg(pb[s.b as int], n);
        assert(dot_s(pa[i], n) <= dot_s(pa[s.a as int], n));
        assert(dot_s(pb[j], neg_s(n)) <= dot_s(pb[s.b as int], neg_s(n)));
    }
}

} // verus!
