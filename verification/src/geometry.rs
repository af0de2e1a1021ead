//! Geometric primitives and the analytic ray-sphere intersection test:
//! a `Ray` (origin and direction, the direction normalized by the caller so
//! that its length is `SCALE`), a `Sphere` (center and positive radius),
//! and the classic closest-hit computation, exact over fixed-point scalars.

use vstd::prelude::*;
use vstd::arithmetic::div_mod::lemma_div_of0;
use crate::fixed::SCALE;
use crate::fixed::tdiv;
use crate::fixed::sqrt_floor;
use crate::fixed::is_isqrt;
use crate::fixed::lemma_isqrt_unique;
use crate::fixed::lemma_abs_mul_bound;
use crate::fixed::lemma_square_nonneg;
use crate::fixed::lemma_tdiv_bound;
use crate::fixed::div_fix;
use crate::fixed::isqrt;
use crate::vec3::Vec3;
use crate::vec3::spec_dot;
use crate::vec3::in_bounds;

verus! {

/// Largest magnitude a scene coordinate or radius may have (256.0 in world
/// units): keeps every intermediate of the intersection inside an `i64`.
pub const COORD_MAX: i64 = 16777216;

/// A half-line: origin plus direction. Distance results are in fixed-point
/// units along the direction, which the caller supplies normalized
/// (components within `[-SCALE, SCALE]`).
#[derive(Copy, Clone, Debug, PartialEq, Eq, Structural)]
pub struct Ray {
    pub origin: Vec3,
    pub direction: Vec3,
}

impl Ray {
    /// The bounds under which the intersection arithmetic cannot overflow.
    pub open spec fn wf(self) -> bool {
        &&& in_bounds(self.origin, COORD_MAX as int)
        &&& in_bounds(self.direction, SCALE as int)
    }
}

/// Rejection of invalid primitive parameters at scene-construction time.
#[derive(Copy, Clone, Debug, PartialEq, Eq, Structural)]
pub enum GeometryError {
    /// The radius was zero or negative.
    NonPositiveRadius,
    /// A center coordinate or the radius exceeds `COORD_MAX` in magnitude.
    OutOfRange,
}

/// One scene primitive: a sphere, read-only once constructed.
#[derive(Copy, Clone, Debug, PartialEq, Eq, Structural)]
pub struct Sphere {
    pub center: Vec3,
    pub radius: i64,
}

/// Dot product of the center offset `L = center - origin` with the ray
/// direction, in squared fixed-point units.
pub open spec fn spec_l_dot_d(s: Sphere, ray: Ray) -> int {
    (s.center.x - ray.origin.x) * ray.direction.x
        + (s.center.y - ray.origin.y) * ray.direction.y
        + (s.center.z - ray.origin.z) * ray.direction.z
}

/// Squared length of the center offset `L`, in squared fixed-point units.
pub open spec fn spec_l_dot_l(s: Sphere, ray: Ray) -> int {
    (s.center.x - ray.origin.x) * (s.center.x - ray.origin.x)
        + (s.center.y - ray.origin.y) * (s.center.y - ray.origin.y)
        + (s.center.z - ray.origin.z) * (s.center.z - ray.origin.z)
}

/// Distance along the ray of the closest approach to the center,
/// in fixed-point units.
pub open spec fn spec_tca(s: Sphere, ray: Ray) -> int {
    tdiv(spec_l_dot_d(s, ray), 65536)
}

/// Squared distance from the center to the closest-approach point,
/// in squared fixed-point units.
pub open spec fn spec_d2(s: Sphere, ray: Ray) -> int {
    spec_l_dot_l(s, ray) - spec_tca(s, ray) * spec_tca(s, ray)
}

/// The nearest intersection distance no closer than `t_min`, or no-hit:
/// the analytic sphere test. The two roots are `tca -+ thc` with
/// `thc = sqrt(radius^2 - d2)`; a root below `t_min` is discarded.
pub open spec fn spec_intersect(s: Sphere, ray: Ray, t_min: int) -> Option<int> {
    let rr = s.radius * s.radius;
    let d2 = spec_d2(s, ray);
    if d2 > rr {
        None
    } else {
        let tca = spec_tca(s, ray);
        let thc = sqrt_floor(rr - d2);
        let t0 = tca - thc;
        let t1 = tca + thc;
        if t0 < t_min {
            if t1 < t_min {
                None
            } else {
                Some(t1)
            }
        } else {
            Some(t0)
        }
    }
}

/// The executable hit result agrees with the spec-level one.
pub open spec fn hit_matches(r: Option<i64>, s: Option<int>) -> bool {
    match r {
        Some(t) => s == Some(t as int),
        None => s is None,
    }
}

/// Nearest hit over a whole scene: the smallest distance any sphere
/// returns, or no-hit when every sphere misses.
pub open spec fn merge_hit(a: Option<int>, b: Option<int>) -> Option<int> {
    match (a, b) {
        (None, bb) => bb,
        (aa, None) => aa,
        (Some(x), Some(y)) => if x <= y {
            Some(x)
        } else {
            Some(y)
        },
    }
}

/// The closest hit among all spheres of the scene.
pub open spec fn spec_scene_hit(scene: Seq<Sphere>, ray: Ray, t_min: int) -> Option<int>
    decreases scene.len(),
{
    if scene.len() == 0 {
        None
    } else {
        merge_hit(
            spec_scene_hit(scene.drop_last(), ray, t_min),
            spec_intersect(scene.last(), ray, t_min),
        )
    }
}

impl Sphere {
    /// Valid primitive parameters: positive radius, coordinates in range.
    pub open spec fn wf(self) -> bool {
        &&& 0 < self.radius <= COORD_MAX
        &&& in_bounds(self.center, COORD_MAX as int)
    }

    /// Construct a sphere, rejecting invalid parameters: a radius that is
    /// not positive, then a center coordinate or radius out of range.
    pub fn new(center: Vec3, radius: i64) -> (r: Result<Sphere, GeometryError>)
        ensures
            radius <= 0 ==> r == Result::<Sphere, GeometryError>::Err(
                GeometryError::NonPositiveRadius,
            ),
            radius > 0 && !(in_bounds(center, COORD_MAX as int) && radius <= COORD_MAX) ==> r
                == Result::<Sphere, GeometryError>::Err(GeometryError::OutOfRange),
            radius > 0 && in_bounds(center, COORD_MAX as int) && radius <= COORD_MAX ==> r
                == Result::<Sphere, GeometryError>::Ok(Sphere { center, radius }),
            r is Ok ==> r.unwrap().wf(),
    {
        if radius <= 0 {
            Err(GeometryError::NonPositiveRadius)
        } else if radius > COORD_MAX || center.x > COORD_MAX || center.x < -COORD_MAX
            || center.y > COORD_MAX || center.y < -COORD_MAX || center.z > COORD_MAX
            || center.z < -COORD_MAX {
            Err(GeometryError::OutOfRange)
        } else {
            Ok(Sphere { center, radius })
        }
    }

    /// The nearest intersection of `ray` with this sphere at distance at
    /// least `t_min`, or `None` when the ray misses.
    pub fn ray_intersect(&self, ray: &Ray, t_min: i64) -> (r: Option<i64>)
        requires
            self.wf(),
            ray.wf(),
            0 <= t_min,
        ensures
            hit_matches(r, spec_intersect(*self, *ray, t_min as int)),
            r is Some ==> t_min <= r.unwrap(),
    {
        let l = self.center.sub(ray.origin);
        proof {
            lemma_abs_mul_bound(l.x as int, ray.direction.x as int, 0x2000000, 0x10000);
            lemma_abs_mul_bound(l.y as int, ray.direction.y as int, 0x2000000, 0x10000);
            lemma_abs_mul_bound(l.z as int, ray.direction.z as int, 0x2000000, 0x10000);
        }
        let dotld = l.dot(ray.direction);
        proof {
            lemma_tdiv_bound(dotld as int, 65536, 0x6000000);
        }
        let tca = div_fix(dotld, 65536);
        proof {
            lemma_abs_mul_bound(l.x as int, l.x as int, 0x2000000, 0x2000000);
            lemma_abs_mul_bound(l.y as int, l.y as int, 0x2000000, 0x2000000);
            lemma_abs_mul_bound(l.z as int, l.z as int, 0x2000000, 0x2000000);
            lemma_square_nonneg(l.x as int);
            lemma_square_nonneg(l.y as int);
            lemma_square_nonneg(l.z as int);
        }
        let dotll = l.dot(l);
        proof {
            lemma_abs_mul_bound(tca as int, tca as int, 0x6000000, 0x6000000);
            lemma_square_nonneg(tca as int);
        }
        let d2 = dotll - tca * tca;
        proof {
            lemma_abs_mul_bound(self.radius as int, self.radius as int, 0x1000000, 0x1000000);
            lemma_square_nonneg(self.radius as int);
        }
        let rr = self.radius * self.radius;
        if d2 > rr {
            return None;
        }
        let thc_wide = isqrt((rr - d2) as u64);
        proof {
            lemma_isqrt_unique((rr - d2) as int, thc_wide as int);
        }
        let thc = thc_wide as i64;
        let t0 = tca - thc;
        let t1 = tca + thc;
        if t0 < t_min {
            if t1 < t_min {
                None
            } else {
                Some(t1)
            }
        } else {
            Some(t0)
        }
    }
}

/// A ray whose closest approach to the center lies farther out than the
/// radius (`d2 > radius^2`) misses the sphere: the test returns no-hit.
pub proof fn lemma_intersect_miss(s: Sphere, ray: Ray, t_min: int)
    requires
        spec_d2(s, ray) > s.radius * s.radius,
    ensures
        spec_intersect(s, ray, t_min) is None,
{
}

/// From the center of a sphere, every ray hits at a distance of exactly
/// the radius: the near root `-radius` falls below `t_min` and is promoted
/// to the far root `radius`.
pub proof fn lemma_intersect_from_center(s: Sphere, ray: Ray, t_min: int)
    requires
        ray.origin == s.center,
        0 < s.radius,
        -s.radius < t_min <= s.radius,
    ensures
        spec_intersect(s, ray, t_min) == Some(s.radius as int),
{
    assert(spec_l_dot_d(s, ray) == 0);
    assert(spec_l_dot_l(s, ray) == 0);
    lemma_div_of0(65536);
    assert(spec_tca(s, ray) == 0);
    assert(spec_d2(s, ray) == 0);
    assert(0 < s.radius * s.radius && s.radius * s.radius < (s.radius + 1) * (s.radius + 1))
        by (nonlinear_arith)
        requires
            0 < s.radius,
    ;
    assert(is_isqrt(s.radius * s.radius, s.radius as int));
    lemma_isqrt_unique(s.radius * s.radius, s.radius as int);
}

/// The scene scan returns the minimum: a hit distance is achieved by some
/// sphere and no sphere hits closer, and a no-hit means every sphere
/// misses.
pub proof fn lemma_scene_hit_is_min(scene: Seq<Sphere>, ray: Ray, t_min: int)
    ensures
        match spec_scene_hit(scene, ray, t_min) {
            Some(t) => (exists|k: int|
                0 <= k < scene.len() && spec_intersect(scene[k], ray, t_min) == Some(t))
                && (forall|k: int|
                0 <= k < scene.len() && (#[trigger] spec_intersect(scene[k], ray, t_min))
                    is Some ==> t <= spec_intersect(scene[k], ray, t_min).unwrap()),
            None => forall|k: int|
                0 <= k < scene.len() ==> (#[trigger] spec_intersect(scene[k], ray, t_min))
                    is None,
        },
    decreases scene.len(),
{
    if scene.len() > 0 {
        let rest = scene.drop_last();
        lemma_scene_hit_is_min(rest, ray, t_min);
        let last = scene.last();
        assert(forall|k: int| 0 <= k < rest.len() ==> scene[k] == rest[k]);
        assert(scene[scene.len() - 1] == last);
        match spec_scene_hit(scene, ray, t_min) {
            Some(t) => {
                match spec_scene_hit(rest, ray, t_min) {
                    Some(tr) => {
                        let kr = choose|k: int|
                            0 <= k < rest.len() && spec_intersect(rest[k], ray, t_min) == Some(
                                tr,
                            );
                        if spec_intersect(last, ray, t_min) is Some && t
                            == spec_intersect(last, ray, t_min).unwrap() && t < tr {
                            assert(spec_intersect(scene[scene.len() - 1], ray, t_min) == Some(
                                t,
                            ));
                        } else {
                            assert(t == tr);
                            assert(spec_intersect(scene[kr], ray, t_min) == Some(t));
                        }
                    },
                    None => {
                        assert(spec_intersect(last, ray, t_min) == Some(t));
                        assert(spec_intersect(scene[scene.len() - 1], ray, t_min) == Some(t));
                    },
                }
            },
            None => {
            },
        }
    }
}

/// The closest hit of `ray` among all spheres of the scene, at distance at
/// least `t_min`, or `None` when every sphere misses.
pub fn scene_hit(scene: &Vec<Sphere>, ray: &Ray, t_min: i64) -> (r: Option<i64>)
    requires
        forall|k: int| 0 <= k < scene@.len() ==> (#[trigger] scene@[k]).wf(),
        ray.wf(),
        0 <= t_min,
    ensures
        hit_matches(r, spec_scene_hit(scene@, *ray, t_min as int)),
        r is Some ==> t_min <= r.unwrap(),
{
    let mut best: Option<i64> = None;
    let mut k: usize = 0;
    while k < scene.len()
        invariant
            k <= scene@.len(),
            forall|m: int| 0 <= m < scene@.len() ==> (#[trigger] scene@[m]).wf(),
            ray.wf(),
            0 <= t_min,
            hit_matches(best, spec_scene_hit(scene@.take(k as int), *ray, t_min as int)),
            best is Some ==> t_min <= best.unwrap(),
        decreases scene@.len() - k,
    {
        let hit = scene[k].ray_intersect(ray, t_min);
        best = match (best, hit) {
            (None, h) => h,
            (b, None) => b,
            (Some(a), Some(c)) => if a <= c {
                Some(a)
            } else {
                Some(c)
            },
        };
        proof {
            assert(scene@.take(k + 1).drop_last() =~= scene@.take(k as int));
            assert(scene@.take(k + 1).last() == scene@[k as int]);
        }
        k = k + 1;
    }
    proof {
        assert(scene@.take(scene@.len() as int) =~= scene@);
    }
    best
}

} // verus!
