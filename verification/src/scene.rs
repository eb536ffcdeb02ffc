//! The scene of an aggregate: a camera and six lights, placed from the
//! aggregate's bounding box alone.

use crate::aggregate::Aggregate;
use crate::geometry::{
    half_toward_zero, lemma_center_inside, min3, BoundingBox, Box3, Point, Vec3, COORD_LIMIT,
};
use vstd::prelude::*;

verus! {

/// The value that stands for a light of full intensity. Intensities count
/// hundredths.
pub const INTENSITY_SCALE: u32 = 100;

/// Number of lights in a synthesized scene.
pub const LIGHTS: usize = 6;

/// The viewpoint of a rendering.
#[derive(Clone, Copy, Debug, PartialEq, Eq, Structural)]
pub struct Camera {
    pub position: Vec3,
    pub target: Vec3,
}

/// A point light; `intensity` counts hundredths of full intensity.
#[derive(Clone, Copy, Debug, PartialEq, Eq, Structural)]
pub struct Light {
    pub position: Vec3,
    pub intensity: u32,
}

/// What can be exported: a camera, lights and the aggregate they look at.
#[derive(Debug)]
pub struct Scene {
    pub camera: Camera,
    pub lights: Vec<Light>,
    pub aggregate: Aggregate,
}

/// Why no scene can be made.
#[derive(Clone, Copy, Debug, PartialEq, Eq, Structural)]
pub enum SceneError {
    /// The bounding box has no extent along some axis, so there is no
    /// distance at which to place camera and lights.
    DegenerateBoundingBox,
}

/// How far camera and lights stand off from the box: its smallest extent.
pub open spec fn standoff(b: Box3) -> int {
    min3(b.dimensions().x, b.dimensions().y, b.dimensions().z)
}

/// Where the camera stands: off the center along `x`, at the center's height,
/// in front of the box along `z`.
pub open spec fn camera_position(b: Box3) -> Point {
    Point { x: b.center().x - standoff(b), y: b.center().y, z: b.lower.z - standoff(b) }
}

/// The point of the box from which light `k` is pushed outward. In order:
/// key, front, fill, background, bottom and top light.
pub open spec fn light_anchor(b: Box3, k: int) -> Point {
    let c = b.center();
    if k == 0 {
        Point { x: b.lower.x, y: c.y, z: b.lower.z }
    } else if k == 1 {
        Point { x: c.x, y: c.y, z: b.lower.z - half_toward_zero(standoff(b)) }
    } else if k == 2 {
        Point { x: b.upper.x, y: b.lower.y, z: b.lower.z }
    } else if k == 3 {
        Point { x: b.lower.x, y: b.upper.y, z: b.upper.z }
    } else if k == 4 {
        Point { x: c.x, y: b.lower.y, z: c.z }
    } else {
        Point { x: c.x, y: b.upper.y, z: c.z }
    }
}

/// The intensity of light `k`, in hundredths: 1.0, 0.2, 0.75, 0.5, 0.75 and
/// 0.5.
pub open spec fn light_intensity(k: int) -> int {
    if k == 0 {
        100
    } else if k == 1 {
        20
    } else if k == 2 {
        75
    } else if k == 3 {
        50
    } else if k == 4 {
        75
    } else {
        50
    }
}

/// `anchor` pushed outward from `center` by `away`: moved along the direction
/// from `center` to `anchor` by a vector of length `away`, every component of
/// which is rounded toward zero. An anchor at the center stays where it is.
pub open spec fn pushed_out(anchor: Point, center: Point, away: int) -> Point {
    anchor.plus(anchor.minus(center).with_length(away))
}

/// Where light `k` stands.
pub open spec fn light_position(b: Box3, k: int) -> Point {
    pushed_out(light_anchor(b, k), b.center(), standoff(b))
}

/// `camera` and `lights` are the camera and the lights of the box `b`.
pub open spec fn depicts(camera: Camera, lights: Seq<Light>, b: Box3) -> bool {
    &&& camera.position@ == camera_position(b)
    &&& camera.target@ == Point::origin()
    &&& lights.len() == LIGHTS
    &&& forall|k: int|
        0 <= k < LIGHTS ==> {
            &&& (#[trigger] lights[k]).position@ == light_position(b, k)
            &&& lights[k].intensity == light_intensity(k)
        }
}

/// The smallest of three numbers.
fn smallest(a: i64, b: i64, c: i64) -> (m: i64)
    ensures
        m == min3(a as int, b as int, c as int),
{
    if a <= b && a <= c {
        a
    } else if b <= c {
        b
    } else {
        c
    }
}

/// The light of the given intensity at `anchor`, pushed outward from
/// `center` by `away`.
fn place_light(anchor: Vec3, center: Vec3, away: i64, intensity: u32) -> (light: Light)
    requires
        anchor@.within(2 * COORD_LIMIT),
        center@.within(COORD_LIMIT as int),
        0 <= away <= 2 * COORD_LIMIT,
    ensures
        light.position@ == pushed_out(anchor@, center@, away as int),
        light.intensity == intensity,
{
    let push = anchor.minus(center).with_length(away);
    Light { position: anchor.plus(push), intensity }
}

/// The camera and the six lights of a bounding box, or
/// `DegenerateBoundingBox` when the box has no extent along some axis.
///
/// The camera looks at the origin. With `away` the smallest extent of the
/// box, it stands at the center of the box moved by `away` against `x`, and
/// by `away` in front of the lower `z` face. The lights are, in this order,
/// the key, front, fill, background, bottom and top light, each pushed
/// outward from the center by `away`.
pub fn synthesize(bbox: &BoundingBox) -> (r: Result<(Camera, [Light; 6]), SceneError>)
    ensures
        r is Err <==> bbox@.degenerate(),
        r matches Ok((camera, lights)) ==> {
            &&& depicts(camera, lights@, bbox@)
            &&& camera.target == (Vec3 { x: 0, y: 0, z: 0 })
            &&& camera.position.z < bbox@.lower.z
        },
{
    if bbox.is_degenerate() {
        return Err(SceneError::DegenerateBoundingBox);
    }
    let lower = bbox.lower();
    let upper = bbox.upper();
    let center = bbox.center();
    let size = bbox.dimensions();
    let away: i64 = smallest(size.x, size.y, size.z);
    proof {
        use_type_invariant(bbox);
        lemma_center_inside(bbox@);
    }
    let camera = Camera {
        position: Vec3 { x: center.x - away, y: center.y, z: lower.z - away },
        target: Vec3 { x: 0, y: 0, z: 0 },
    };
    let key = place_light(Vec3 { x: lower.x, y: center.y, z: lower.z }, center, away, 100);
    let front = place_light(
        Vec3 { x: center.x, y: center.y, z: lower.z - away / 2 },
        center,
        away,
        20,
    );
    let fill = place_light(Vec3 { x: upper.x, y: lower.y, z: lower.z }, center, away, 75);
    let background = place_light(Vec3 { x: lower.x, y: upper.y, z: upper.z }, center, away, 50);
    let bottom = place_light(Vec3 { x: center.x, y: lower.y, z: center.z }, center, away, 75);
    let top = place_light(Vec3 { x: center.x, y: upper.y, z: center.z }, center, away, 50);
    Ok((camera, [key, front, fill, background, bottom, top]))
}

impl Scene {
    /// The scene of an aggregate: the aggregate with the camera and the
    /// lights of its bounding box. Fails when the box is degenerate.
    pub fn new(aggregate: Aggregate) -> (r: Result<Scene, SceneError>)
        ensures
            r is Err <==> aggregate@.bbox.degenerate(),
            r matches Ok(scene) ==> {
                &&& scene.aggregate@ == aggregate@
                &&& depicts(scene.camera, scene.lights@, aggregate@.bbox)
                &&& scene.camera.target == (Vec3 { x: 0, y: 0, z: 0 })
                &&& scene.camera.position.z < aggregate@.bbox.lower.z
            },
    {
        let bbox = aggregate.bbox();
        match synthesize(&bbox) {
            Ok((camera, six)) => {
                let mut lights: Vec<Light> = Vec::new();
                let mut k: usize = 0;
                while k < 6
                    invariant
                        k <= 6,
                        lights@ == six@.take(k as int),
                    decreases 6 - k,
                {
                    lights.push(six[k]);
                    assert(six@.take(k + 1) =~= six@.take(k as int).push(six@[k as int]));
                    k = k + 1;
                }
                assert(six@.take(6) =~= six@);
                Ok(Scene { camera, lights, aggregate })
            },
            Err(e) => Err(e),
        }
    }
}

/// Two scenes of one box are the same scene: camera and lights are a function
/// of the box alone.
pub proof fn lemma_synthesis_is_deterministic(
    b: Box3,
    camera1: Camera,
    lights1: Seq<Light>,
    camera2: Camera,
    lights2: Seq<Light>,
)
    requires
        depicts(camera1, lights1, b),
        depicts(camera2, lights2, b),
    ensures
        camera1 == camera2,
        lights1 == lights2,
{
    assert forall|k: int| 0 <= k < lights1.len() implies lights1[k] == lights2[k] by {
        assert(lights1[k].position@ == lights2[k].position@);
    }
    assert(lights1 =~= lights2);
}

/// The camera of a box that is not degenerate looks at the origin from in
/// front of the box: its `z` is smaller than that of any point of the box.
pub proof fn lemma_camera_in_front(b: Box3, camera: Camera, lights: Seq<Light>)
    requires
        b.valid(),
        !b.degenerate(),
        depicts(camera, lights, b),
    ensures
        camera.target@ == Point::origin(),
        camera.position@.z < b.lower.z,
        standoff(b) > 0,
{
}

/// A synthesized scene has six lights: key, front, fill, background, bottom
/// and top, of intensity 1.0, 0.2, 0.75, 0.5, 0.75 and 0.5.
pub proof fn lemma_six_lights(b: Box3, camera: Camera, lights: Seq<Light>)
    requires
        depicts(camera, lights, b),
    ensures
        lights.len() == 6,
        lights[0].intensity == 100,
        lights[1].intensity == 20,
        lights[2].intensity == 75,
        lights[3].intensity == 50,
        lights[4].intensity == 75,
        lights[5].intensity == 50,
{
}

} // verus!
