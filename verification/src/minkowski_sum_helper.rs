use vstd::prelude::*;

use crate::simplex_based_cd_helper::{is_max, poly_ok};
use crate::vector::{dot_s, in_bound, lemma_dot_bound, neg_s, sub_s, Int3, COORD_LIMIT, DIR_LIMIT};

verus! {

/// A vertex of the Minkowski difference together with the indices of
/// the originating vertices in each shape.  This is the plain, value
/// form of the support query; the tie-aware form lives in
/// `simplex_based_cd_helper`.
#[derive(Debug, Clone, Copy)]
pub struct MinkowskiSumPoint {
    pub v: Int3,
    pub a: usize,
    pub b: usize,
}

impl PartialEq for MinkowskiSumPoint {
    /// Two support points are the same point when they come from the
    /// same pair of vertices, whatever the recomputed coordinates say.
    fn eq(&self, rhs: &Self) -> (r: bool) {
        self.a == rhs.a && self.b == rhs.b
    }
}

impl vstd::std_specs::cmp::PartialEqSpecImpl for MinkowskiSumPoint {
    open spec fn obeys_eq_spec() -> bool {
        true
    }

    open spec fn eq_spec(&self, rhs: &Self) -> bool {
        self.a == rhs.a && self.b == rhs.b
    }
}

/// Index of the vertex extremal in direction `d`: the first one whose
/// projection equals the maximum.
fn support_in(poly: &Vec<Int3>, d: &Int3) -> (r: usize)
    requires
        poly@.len() >= 1,
        poly_ok(poly@),
        in_bound(*d, DIR_LIMIT as int),
    ensures
        r < poly@.len(),
        is_max(poly@, *d, r as int),
        forall|j: int| 0 <= j < r ==> dot_s(poly@[j], *d) < dot_s(poly@[r as int], *d),
{
    let mut ret: usize = 0;
    let mut max: i128 = i128::MIN;
    let mut i: usize = 0;
    while i < poly.len()
        invariant
            poly@.len() >= 1,
            poly_ok(poly@),
            in_bound(*d, DIR_LIMIT as int),
            0 <= i <= poly@.len(),
            i == 0 ==> ret == 0 && max == i128::MIN,
            i > 0 ==> ret < i && max == dot_s(poly@[ret as int], *d),
            i > 0 ==> forall|j: int| 0 <= j < i ==> dot_s(poly@[j], *d) <= max,
            i > 0 ==> forall|j: int| 0 <= j < ret ==> dot_s(poly@[j], *d) < max,
        decreases poly@.len() - i,
    {
        proof {
            lemma_dot_bound(poly@[i as int], *d, COORD_LIMIT as int, DIR_LIMIT as int);
        }
        let c = poly[i].dot(d);
        if c > max {
            max = c;
            ret = i;
        }
        i = i + 1;
    }
    ret
}

/// Support of the Minkowski difference `A - B` in direction `d`: the
/// difference of the vertex of `A` extremal along `d` and the vertex of
/// `B` extremal along `-d`, each the first such vertex in shape order.
pub fn support(polya: &Vec<Int3>, polyb: &Vec<Int3>, d: &Int3) -> (r: MinkowskiSumPoint)
    requires
        polya@.len() >= 1,
        polyb@.len() >= 1,
        poly_ok(polya@),
        poly_ok(polyb@),
        in_bound(*d, DIR_LIMIT as int),
    ensures
        r.a < polya@.len(),
        r.b < polyb@.len(),
        r.v == sub_s(polya@[r.a as int], polyb@[r.b as int]),
        is_max(polya@, *d, r.a as int),
        is_max(polyb@, neg_s(*d), r.b as int),
        forall|j: int| 0 <= j < r.a ==> dot_s(#[trigger] polya@[j], *d) < dot_s(
            polya@[r.a as int],
            *d,
        ),
        forall|j: int| 0 <= j < r.b ==> dot_s(#[trigger] polyb@[j], neg_s(*d)) < dot_s(
            polyb@[r.b as int],
            neg_s(*d),
        ),
{
    let a = support_in(polya, d);
    let nd = d.neg();
    let b = support_in(polyb, &nd);
    MinkowskiSumPoint { v: polya[a].sub(&polyb[b]), a: a, b: b }
}

} // verus!
