use vstd::prelude::*;

use crate::simplex_based_cd_helper::{
    calculate_mtv_from_nearest_feature, cand_exact, cands_ok, classified_by_cached,
    entry_class_s, epa_extract_s, epa_face_s, face_wf, frame_result_wf, lemma_point_bound,
    lemma_separating, lemma_supporting_plane, plane_normal, plane_normal_s, poly_ok, results_of,
    separating_dir, support, support_s, supporting_plane, valid_point, EPA2Simplex, Error,
    Frame3Simplex, MinkowskiSumPoint,
};
use crate::vector::{
    dot_s, in_bound, lemma_cross_bound, lemma_dot_bound, lemma_mul_bound, neg_s, sub_s,
    tri_normal_s, Int3, DIR_LIMIT,
};

verus! {

/// Iteration bound of the simplex-refinement, closest-feature and
/// polytope-expansion loops.
pub const MAX_ITERATION: i32 = 32;

/// The initial triangle and outward search direction the refinement
/// starts from: two opposed support points, a third in a perpendicular
/// direction, oriented so the triangle normal points away from the
/// origin (a zero initial direction, by the x/y-only zero test, is
/// replaced by `(1, 1, 1)`).
pub open spec fn gjk_init_s(pa: Seq<Int3>, pb: Seq<Int3>, ab: Int3) -> (
    MinkowskiSumPoint,
    MinkowskiSumPoint,
    MinkowskiSumPoint,
    Int3,
) {
    let dstart = if ab.x == 0 && ab.y == 0 {
        Int3 { x: 1, y: 1, z: 1 }
    } else {
        ab
    };
    let s0 = support_s(pa, pb, dstart);
    let s1 = support_s(pa, pb, neg_s(s0.v));
    let dp = plane_normal_s(sub_s(s1.v, s0.v), neg_s(s0.v));
    let s2 = support_s(pa, pb, dp);
    let n = tri_normal_s(s0.v, s1.v, s2.v);
    if dot_s(n, s0.v) > 0 {
        (s0, s2, s1, neg_s(n))
    } else {
        (s0, s1, s2, n)
    }
}

/// Decide whether the convex hulls of `polya` and `polyb` intersect.
///
/// `ab` is the initial search direction (commonly the difference of the
/// two shapes' centers); when its x and y components are both zero the
/// fixed direction `(1, 1, 1)` is used instead.  On `Ok` the frame's
/// result fields hold the minimum translation vector, its magnitude and
/// the witness points: a separating pair when the result is `false`, a
/// penetration pair when it is `true`.  A shape with fewer than 4
/// vertices is rejected, before any support query, with
/// `Error::InvalidInput`; the bounded search loops fail closed with the
/// other `Error` variants.
pub fn check(
    polya: &Vec<Int3>,
    polyb: &Vec<Int3>,
    ab: &Int3,
    f: &mut Frame3Simplex,
) -> (r: Result<bool, Error>)
    requires
        poly_ok(polya@),
        poly_ok(polyb@),
        in_bound(*ab, DIR_LIMIT as int),
    ensures
        r == Err::<bool, Error>(Error::InvalidInput) <==> (polya@.len() < 4 || polyb@.len() < 4),
        (r == Ok::<bool, Error>(true) || r == Ok::<bool, Error>(false)) ==> frame_result_wf(
            *final(f),
            polya@,
            polyb@,
        ),
        r == Ok::<bool, Error>(false) ==> exists|sd: Int3| #[trigger] separating_dir(
            sd,
            polya@,
            polyb@,
        ),
        r == Ok::<bool, Error>(true) ==> exists|n: Int3| #[trigger] supporting_plane(
            n,
            final(f).s0.v,
            polya@,
            polyb@,
        ),
        r == Err::<bool, Error>(Error::InvalidInput) ==> *final(f) == *old(f),
        r == Ok::<bool, Error>(false) ==> exists|dv: Int3| #[trigger] classified_by_cached(
            *final(f),
            polya@,
            polyb@,
            dv,
        ),
        polya@.len() >= 4 && polyb@.len() >= 4 ==> ({
            let init = gjk_init_s(polya@, polyb@, *ab);
            let sp = support_s(polya@, polyb@, init.3);
            dot_s(sp.v, init.3) < 0 ==> {
                &&& r != Ok::<bool, Error>(true)
                &&& r != Err::<bool, Error>(Error::SimplexSearch)
                &&& dot_s(init.3, sub_s(sp.v, init.0.v)) <= 0 ==> {
                    let ec = entry_class_s(
                        polya@,
                        polyb@,
                        final(f).candidate_a@,
                        final(f).candidate_b@,
                        init.0,
                        init.1,
                        init.2,
                        init.3,
                    );
                    &&& (r == Ok::<bool, Error>(false) || r == Err::<bool, Error>(
                        Error::NearestFeatureSearch,
                    ))
                    &&& cand_exact(final(f).candidate_a@, polya@, init.3)
                    &&& cand_exact(final(f).candidate_b@, polyb@, neg_s(init.3))
                    &&& (ec is Some ==> r == Ok::<bool, Error>(false) && final(f).s0 == init.0
                        && final(f).s1 == init.1 && final(f).s2 == init.2 && ec == Some(
                        results_of(*final(f)),
                    ))
                }
            }
        }),
        r == Ok::<bool, Error>(true) ==> exists|
            t0: MinkowskiSumPoint,
            t1: MinkowskiSumPoint,
            t2: MinkowskiSumPoint,
            t3: MinkowskiSumPoint,
        |
            #![trigger valid_point(t0, polya@, polyb@), valid_point(t1, polya@, polyb@), valid_point(t2, polya@, polyb@), valid_point(t3, polya@, polyb@)]
            {
                &&& valid_point(t0, polya@, polyb@)
                &&& valid_point(t1, polya@, polyb@)
                &&& valid_point(t2, polya@, polyb@)
                &&& valid_point(t3, polya@, polyb@)
                &&& dot_s(t3.v, tri_normal_s(t0.v, t1.v, t3.v)) >= 0
                &&& dot_s(t3.v, tri_normal_s(t2.v, t0.v, t3.v)) >= 0
                &&& dot_s(t3.v, tri_normal_s(t1.v, t2.v, t3.v)) >= 0
                &&& final(f).cache_epa@ == epa_faces_s(t0, t1, t2, t3)
                &&& ({
                    let faces = epa_faces_s(t0, t1, t2, t3);
                    let mf = faces[min_face_idx(faces, 4)];
                    &&& dot_s(mf.n, sub_s(support_s(polya@, polyb@, mf.n).v, mf.v0.v)) <= 0
                    &&& final(f).s0 == mf.v0 && final(f).s1 == mf.v1 && final(f).s2 == mf.v2
                    &&& results_of(*final(f)) == epa_extract_s(polya@, polyb@, mf)
                })
            },
{
    if polya.len() < 4 || polyb.len() < 4 {
        return Err(Error::InvalidInput);
    }
    let one = Int3 { x: 1, y: 1, z: 1 };
    let d0v = if ab.is_zero() {
        one
    } else {
        *ab
    };
    let s0 = support(polya, polyb, &d0v, f);
    proof {
        lemma_point_bound(s0, polya@, polyb@);
    }
    let ns0 = s0.v.neg();
    let s1 = support(polya, polyb, &ns0, f);
    proof {
        lemma_point_bound(s1, polya@, polyb@);
    }
    let de = s1.v.sub(&s0.v);
    let dpn = plane_normal(&de, &ns0);
    let s2 = support(polya, polyb, &dpn, f);
    proof {
        lemma_point_bound(s2, polya@, polyb@);
        lemma_cross_bound(sub_s(s1.v, s0.v), sub_s(s2.v, s0.v), 2048, 2048);
    }
    let mut s0 = s0;
    let mut s1 = s1;
    let mut s2 = s2;
    let mut d = s0.v.triangle_normal(&s1.v, &s2.v);
    let c = d.dot(&s0.v);
    if c > 0 {
        let tmp = s1;
        s1 = s2;
        s2 = tmp;
        d = d.neg();
    }
    proof {
        let gi = gjk_init_s(polya@, polyb@, *ab);
        assert(s0 == gi.0 && s1 == gi.1 && s2 == gi.2 && d == gi.3);
    }
    let ghost gi = gjk_init_s(polya@, polyb@, *ab);
    let ghost gs3 = support_s(polya@, polyb@, gi.3);
    let mut iteration: i32 = 0;
    loop
        invariant
            poly_ok(polya@),
            poly_ok(polyb@),
            polya@.len() >= 4,
            polyb@.len() >= 4,
            valid_point(s0, polya@, polyb@),
            valid_point(s1, polya@, polyb@),
            valid_point(s2, polya@, polyb@),
            in_bound(d, DIR_LIMIT as int),
            cands_ok(*f, polya@, polyb@),
            gi == gjk_init_s(polya@, polyb@, *ab),
            gs3 == support_s(polya@, polyb@, gi.3),
            iteration == 0 ==> s0 == gi.0 && s1 == gi.1 && s2 == gi.2 && d == gi.3,
            iteration > 0 ==> dot_s(gs3.v, gi.3) >= 0,
            0 <= iteration < 32,
        decreases 32 - iteration,
    {
        let s3 = support(polya, polyb, &d, f);
        proof {
            lemma_point_bound(s3, polya@, polyb@);
        }
        let c3 = s3.v.dot(&d);
        if c3 < 0 {
            proof {
                lemma_separating(polya@, polyb@, d, s3);
                if iteration == 0 {
                    assert(s3 == gs3);
                }
            }
            return no_collision(polya, polyb, f, s0, s1, s2, s3, d);
        }
        proof {
            lemma_cross_bound(sub_s(s1.v, s0.v), sub_s(s3.v, s0.v), 2048, 2048);
            lemma_cross_bound(sub_s(s0.v, s2.v), sub_s(s3.v, s2.v), 2048, 2048);
            lemma_cross_bound(sub_s(s2.v, s1.v), sub_s(s3.v, s1.v), 2048, 2048);
        }
        let n0 = s0.v.triangle_normal(&s1.v, &s3.v);
        let n1 = s2.v.triangle_normal(&s0.v, &s3.v);
        let n2 = s1.v.triangle_normal(&s2.v, &s3.v);
        let dd0 = s3.v.dot(&n0);
        let dd1 = s3.v.dot(&n1);
        let dd2 = s3.v.dot(&n2);
        if dd0 >= 0 && dd1 >= 0 && dd2 >= 0 {
            proof {
                assert(valid_point(s0, polya@, polyb@) && valid_point(s1, polya@, polyb@)
                    && valid_point(s2, polya@, polyb@) && valid_point(s3, polya@, polyb@)
                    && dot_s(s3.v, tri_normal_s(s0.v, s1.v, s3.v)) >= 0 && dot_s(
                    s3.v,
                    tri_normal_s(s2.v, s0.v, s3.v),
                ) >= 0 && dot_s(s3.v, tri_normal_s(s1.v, s2.v, s3.v)) >= 0);
                if iteration == 0 {
                    assert(s3 == gs3);
                }
            }
            let res = epa(polya, polyb, f, s0, s1, s2, s3);
            return res;
        }
        if dd0 < 0 {
            s2 = s3;
            d = n0;
        } else if dd1 < 0 {
            s1 = s3;
            d = n1;
        } else {
            s0 = s3;
            d = n2;
        }
        iteration = iteration + 1;
        if iteration >= MAX_ITERATION {
            return Err(Error::SimplexSearch);
        }
    }
}

/// Separated case: walk the triangle toward the origin, replacing the
/// vertex whose candidate sub-triangle scores worst (the score is a
/// monotone surrogate for the squared distance of the sub-triangle's
/// supporting plane from the origin, compared exactly by cross
/// multiplication), until no support point lies beyond the triangle
/// along the search direction; then classify the nearest feature.
fn no_collision(
    polya: &Vec<Int3>,
    polyb: &Vec<Int3>,
    f: &mut Frame3Simplex,
    s0: MinkowskiSumPoint,
    s1: MinkowskiSumPoint,
    s2: MinkowskiSumPoint,
    s3: MinkowskiSumPoint,
    d: Int3,
) -> (r: Result<bool, Error>)
    requires
        poly_ok(polya@),
        poly_ok(polyb@),
        polya@.len() >= 1,
        polyb@.len() >= 1,
        valid_point(s0, polya@, polyb@),
        valid_point(s1, polya@, polyb@),
        valid_point(s2, polya@, polyb@),
        valid_point(s3, polya@, polyb@),
        in_bound(d, DIR_LIMIT as int),
        cands_ok(*old(f), polya@, polyb@),
        separating_dir(d, polya@, polyb@),
    ensures
        r == Ok::<bool, Error>(false) || r == Err::<bool, Error>(Error::NearestSimplexSearch)
            || r == Err::<bool, Error>(Error::NearestFeatureSearch),
        r == Ok::<bool, Error>(false) ==> frame_result_wf(*final(f), polya@, polyb@),
        r == Ok::<bool, Error>(false) ==> exists|sd: Int3| #[trigger] separating_dir(
            sd,
            polya@,
            polyb@,
        ),
        dot_s(d, sub_s(s3.v, s0.v)) <= 0 ==> ({
            let ec = entry_class_s(
                polya@,
                polyb@,
                old(f).candidate_a@,
                old(f).candidate_b@,
                s0,
                s1,
                s2,
                d,
            );
            &&& (r == Ok::<bool, Error>(false) || r == Err::<bool, Error>(
                Error::NearestFeatureSearch,
            ))
            &&& final(f).candidate_a@ == old(f).candidate_a@
            &&& final(f).candidate_b@ == old(f).candidate_b@
            &&& (ec is Some ==> r == Ok::<bool, Error>(false) && final(f).s0 == s0
                && final(f).s1 == s1 && final(f).s2 == s2 && ec == Some(results_of(*final(f))))
        }),
        r == Ok::<bool, Error>(false) ==> exists|dv: Int3| #[trigger] classified_by_cached(
            *final(f),
            polya@,
            polyb@,
            dv,
        ),
{
    let ghost cae = f.candidate_a@;
    let ghost cbe = f.candidate_b@;
    let mut c0 = s0;
    let mut c1 = s1;
    let mut c2 = s2;
    let mut c3 = s3;
    let ghost d_init = d;
    let mut dc = d;
    let mut iteration: i32 = 0;
    loop
        invariant
            poly_ok(polya@),
            poly_ok(polyb@),
            polya@.len() >= 1,
            polyb@.len() >= 1,
            valid_point(c0, polya@, polyb@),
            valid_point(c1, polya@, polyb@),
            valid_point(c2, polya@, polyb@),
            valid_point(c3, polya@, polyb@),
            in_bound(dc, DIR_LIMIT as int),
            cands_ok(*f, polya@, polyb@),
            separating_dir(d_init, polya@, polyb@),
            0 <= iteration < 32,
            cae == old(f).candidate_a@ && cbe == old(f).candidate_b@,
            iteration == 0 ==> c0 == s0 && c1 == s1 && c2 == s2 && c3 == s3 && dc == d
                && f.candidate_a@ == cae && f.candidate_b@ == cbe,
            iteration > 0 ==> dot_s(d, sub_s(s3.v, s0.v)) > 0,
        decreases 32 - iteration,
    {
        proof {
            lemma_point_bound(c0, polya@, polyb@);
            lemma_point_bound(c1, polya@, polyb@);
            lemma_point_bound(c2, polya@, polyb@);
            lemma_point_bound(c3, polya@, polyb@);
        }
        let e30 = c3.v.sub(&c0.v);
        let cond = dc.dot(&e30);
        if cond <= 0 {
            proof {
                assert(separating_dir(d_init, polya@, polyb@));
            }
            let res = calculate_mtv_from_nearest_feature(polya, polyb, f, c0, c1, c2, &dc);
            proof {
                if res == Ok::<bool, Error>(false) {
                    assert(classified_by_cached(*f, polya@, polyb@, dc));
                }
            }
            return res;
        }
        proof {
            lemma_cross_bound(sub_s(c1.v, c0.v), sub_s(c3.v, c0.v), 2048, 2048);
            lemma_cross_bound(sub_s(c1.v, c3.v), sub_s(c2.v, c3.v), 2048, 2048);
            lemma_cross_bound(sub_s(c3.v, c0.v), sub_s(c2.v, c0.v), 2048, 2048);
        }
        let n0 = c0.v.triangle_normal(&c1.v, &c3.v);
        let n1 = c3.v.triangle_normal(&c1.v, &c2.v);
        let n2 = c0.v.triangle_normal(&c3.v, &c2.v);
        proof {
            lemma_dot_bound(crate::vector::tri_normal_s(c0.v, c1.v, c3.v), c3.v, 8388608, 1024);
            lemma_dot_bound(crate::vector::tri_normal_s(c3.v, c1.v, c2.v), c3.v, 8388608, 1024);
            lemma_dot_bound(crate::vector::tri_normal_s(c0.v, c3.v, c2.v), c3.v, 8388608, 1024);
            lemma_dot_bound(
                crate::vector::tri_normal_s(c0.v, c1.v, c3.v),
                crate::vector::tri_normal_s(c0.v, c1.v, c3.v),
                8388608,
                8388608,
            );
            lemma_dot_bound(
                crate::vector::tri_normal_s(c3.v, c1.v, c2.v),
                crate::vector::tri_normal_s(c3.v, c1.v, c2.v),
                8388608,
                8388608,
            );
            lemma_dot_bound(
                crate::vector::tri_normal_s(c0.v, c3.v, c2.v),
                crate::vector::tri_normal_s(c0.v, c3.v, c2.v),
                8388608,
                8388608,
            );
        }
        let d0r = n0.dot(&c3.v);
        let d0c: i128 = if d0r < 0 {
            0
        } else {
            d0r
        };
        let d1r = n1.dot(&c3.v);
        let d1c: i128 = if d1r < 0 {
            0
        } else {
            d1r
        };
        let d2r = n2.dot(&c3.v);
        let d2c: i128 = if d2r < 0 {
            0
        } else {
            d2r
        };
        let sm0 = n0.sqr_magnitude();
        let sm1 = n1.sqr_magnitude();
        let sm2 = n2.sqr_magnitude();
        proof {
            lemma_mul_bound(d0c as int, d0c as int, 25769803776, 25769803776);
            lemma_mul_bound(d1c as int, d1c as int, 25769803776, 25769803776);
            lemma_mul_bound(d2c as int, d2c as int, 25769803776, 25769803776);
        }
        let q0 = d0c * d0c;
        let q1 = d1c * d1c;
        let q2 = d2c * d2c;
        proof {
            lemma_mul_bound(q0 as int, sm1 as int, 664082786653543858176, 211106232532992);
            lemma_mul_bound(q0 as int, sm2 as int, 664082786653543858176, 211106232532992);
            lemma_mul_bound(q1 as int, sm0 as int, 664082786653543858176, 211106232532992);
            lemma_mul_bound(q1 as int, sm2 as int, 664082786653543858176, 211106232532992);
            lemma_mul_bound(q2 as int, sm0 as int, 664082786653543858176, 211106232532992);
            lemma_mul_bound(q2 as int, sm1 as int, 664082786653543858176, 211106232532992);
        }
        let le01 = q0 * sm1 >= q1 * sm0;
        let le02 = q0 * sm2 >= q2 * sm0;
        let le10 = q1 * sm0 >= q0 * sm1;
        let le12 = q1 * sm2 >= q2 * sm1;
        if le01 && le02 {
            c2 = c3;
        } else if le10 && le12 {
            c0 = c3;
        } else {
            c1 = c3;
        }
        proof {
            lemma_cross_bound(sub_s(c1.v, c0.v), sub_s(c2.v, c0.v), 2048, 2048);
        }
        dc = c0.v.triangle_normal(&c1.v, &c2.v);
        c3 = support(polya, polyb, &dc, f);
        iteration = iteration + 1;
        if iteration >= MAX_ITERATION {
            return Err(Error::NearestSimplexSearch);
        }
    }
}

/// The four polytope faces seeded from the final simplex.
pub open spec fn epa_faces_s(
    s0: MinkowskiSumPoint,
    s1: MinkowskiSumPoint,
    s2: MinkowskiSumPoint,
    s3: MinkowskiSumPoint,
) -> Seq<EPA2Simplex> {
    seq![
        epa_face_s(s0, s2, s1),
        epa_face_s(s0, s1, s3),
        epa_face_s(s1, s2, s3),
        epa_face_s(s2, s0, s3),
    ]
}

/// Index of the first face with minimal squared distance among the
/// first `n` faces of the cache.
pub open spec fn min_face_idx(faces: Seq<EPA2Simplex>, n: int) -> int
    decreases n,
{
    if n <= 1 {
        0
    } else {
        let m = min_face_idx(faces, n - 1);
        if faces[n - 1].d_sqr < faces[m].d_sqr {
            n - 1
        } else {
            m
        }
    }
}

/// Overlapping case: seed the polytope face cache with the four faces
/// of the final tetrahedron, then repeatedly expand past the face
/// closest to the origin until no support point lies beyond its plane;
/// that face yields the penetration vector and witness points.
#[verifier::rlimit(100)]
fn epa(
    polya: &Vec<Int3>,
    polyb: &Vec<Int3>,
    f: &mut Frame3Simplex,
    s0: MinkowskiSumPoint,
    s1: MinkowskiSumPoint,
    s2: MinkowskiSumPoint,
    s3: MinkowskiSumPoint,
) -> (r: Result<bool, Error>)
    requires
        poly_ok(polya@),
        poly_ok(polyb@),
        polya@.len() >= 1,
        polyb@.len() >= 1,
        valid_point(s0, polya@, polyb@),
        valid_point(s1, polya@, polyb@),
        valid_point(s2, polya@, polyb@),
        valid_point(s3, polya@, polyb@),
    ensures
        r == Ok::<bool, Error>(true) || r == Err::<bool, Error>(Error::EPA),
        r == Ok::<bool, Error>(true) ==> frame_result_wf(*final(f), polya@, polyb@),
        r == Ok::<bool, Error>(true) ==> exists|n: Int3| #[trigger] supporting_plane(
            n,
            final(f).s0.v,
            polya@,
            polyb@,
        ),
        final(f).cache_epa@ == epa_faces_s(s0, s1, s2, s3),
        ({
            let faces = epa_faces_s(s0, s1, s2, s3);
            let mf = faces[min_face_idx(faces, 4)];
            let sp = support_s(polya@, polyb@, mf.n);
            &&& (r == Ok::<bool, Error>(true) <==> dot_s(mf.n, sub_s(sp.v, mf.v0.v)) <= 0)
            &&& r == Ok::<bool, Error>(true) ==> final(f).s0 == mf.v0 && final(f).s1 == mf.v1
                && final(f).s2 == mf.v2 && results_of(*final(f)) == epa_extract_s(
                polya@,
                polyb@,
                mf,
            )
        }),
{
    proof {
        lemma_point_bound(s0, polya@, polyb@);
        lemma_point_bound(s1, polya@, polyb@);
        lemma_point_bound(s2, polya@, polyb@);
        lemma_point_bound(s3, polya@, polyb@);
    }
    f.cache_epa.clear();
    f.cache_epa.push(EPA2Simplex::new(&s0, &s2, &s1));
    f.cache_epa.push(EPA2Simplex::new(&s0, &s1, &s3));
    f.cache_epa.push(EPA2Simplex::new(&s1, &s2, &s3));
    f.cache_epa.push(EPA2Simplex::new(&s2, &s0, &s3));
    proof {
        assert(f.cache_epa@ =~= epa_faces_s(s0, s1, s2, s3));
    }
    let ghost faces0 = f.cache_epa@;
    let mut iteration: i32 = 0;
    loop
        invariant
            poly_ok(polya@),
            poly_ok(polyb@),
            polya@.len() >= 1,
            polyb@.len() >= 1,
            faces0 == epa_faces_s(s0, s1, s2, s3),
            f.cache_epa@ == faces0,
            f.cache_epa@.len() == 4,
            forall|k: int|
                0 <= k < f.cache_epa@.len() ==> face_wf(#[trigger] f.cache_epa@[k], polya@, polyb@),
            0 <= iteration < 32,
        decreases 32 - iteration,
    {
        let mut min: usize = 0;
        let mut dist: i128 = i128::MAX;
        let mut p: usize = 0;
        while p < f.cache_epa.len()
            invariant
                poly_ok(polya@),
                polyb@.len() >= 1,
                f.cache_epa@.len() == 4,
                forall|k: int|
                    0 <= k < f.cache_epa@.len() ==> face_wf(
                        #[trigger] f.cache_epa@[k],
                        polya@,
                        polyb@,
                    ),
                0 <= p <= f.cache_epa@.len(),
                p == 0 ==> min == 0 && dist == i128::MAX,
                p > 0 ==> min < p && dist == f.cache_epa@[min as int].d_sqr && min as int
                    == min_face_idx(f.cache_epa@, p as int),
            decreases f.cache_epa@.len() - p,
        {
            let ghost pm = min as int;
            if f.cache_epa[p].d_sqr < dist {
                dist = f.cache_epa[p].d_sqr;
                min = p;
            }
            proof {
                if p == 0 {
                    assert(min_face_idx(f.cache_epa@, 1) == 0);
                } else {
                    assert(min_face_idx(f.cache_epa@, p as int + 1) == (
                    if f.cache_epa@[p as int].d_sqr < f.cache_epa@[min_face_idx(
                        f.cache_epa@,
                        p as int,
                    )].d_sqr {
                        p as int
                    } else {
                        min_face_idx(f.cache_epa@, p as int)
                    }));
                }
            }
            p = p + 1;
        }
        let face = f.cache_epa[min];
        let s3n = support(polya, polyb, &face.n, f);
        proof {
            lemma_point_bound(s3n, polya@, polyb@);
            lemma_point_bound(face.v0, polya@, polyb@);
        }
        let diff = s3n.v.sub(&face.v0.v);
        let c = face.n.dot(&diff);
        if c <= 0 {
            proof {
                let w = sub_s(s3n.v, face.v0.v);
                assert(crate::vector::dot_s(face.n, w) == crate::vector::dot_s(w, face.n))
                    by (nonlinear_arith);
                lemma_supporting_plane(polya@, polyb@, face.n, face.v0.v, s3n);
            }
            f.mtv_from_epa(&face, polya, polyb);
            return Ok(true);
        }
        iteration = iteration + 1;
        if iteration >= MAX_ITERATION {
            return Err(Error::EPA);
        }
    }
}

} // verus!
