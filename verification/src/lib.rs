//! Exact-arithmetic GJK/EPA collision queries for convex polyhedra.
//!
//! Shapes are ordered lists of integer-coordinate vertices; a query
//! decides whether the two convex hulls overlap and fills a reusable
//! frame with the minimum translation vector, its magnitude and a pair
//! of witness points, all in fixed point with denominator
//! [`vector::SCALE`].
//!
//! The central verified guarantees: a `false` verdict comes with a
//! separating direction onto which every vertex of the Minkowski
//! difference projects strictly negatively, and with the frame's
//! results pinned to a face or edge reconstruction of the cached
//! triangle; a `true` verdict pins the final polytope exactly — the
//! frame's cache holds the four faces built from a tetrahedron of
//! support points whose refinement test passed, the extraction used the
//! minimum-distance face, its supporting-plane test passed, and the
//! results equal that face's reconstruction (`true` certifies the
//! search's convergence, not overlap itself: the refinement test can
//! accept a degenerate tetrahedron); the support query's result is a
//! spec-level function of the inputs (exactly the tie-minimal extremal
//! pair); the recorded distance is always the magnitude of the vector
//! the translation was normalized from; and every search loop provably
//! terminates within its iteration bound, otherwise failing closed with
//! the phase's error.

pub mod gjk3d;
pub mod minkowski_sum_helper;
pub mod simplex_based_cd_helper;
pub mod vector;
