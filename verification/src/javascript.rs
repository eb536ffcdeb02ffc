//! The structured-data format: the whole scene as one object literal, without
//! colors.

use crate::aggregate::Cluster;
use crate::geometry::{Point, Vec3};
use crate::scene::{Camera, Light, Scene, INTENSITY_SCALE};
use crate::text::{decimal, fraction_text, push_decimal, push_fraction};
use vstd::prelude::*;
use vstd::string::*;

verus! {

/// A point as an object with the three named fields `x`, `y` and `z`.
pub open spec fn js_vector(p: Point) -> Seq<char> {
    "{ x: "@ + decimal(p.x) + ", y: "@ + decimal(p.y) + ", z: "@ + decimal(p.z) + " }"@
}

/// One entry of the `lights` array: position and intensity.
pub open spec fn js_light(light: Light) -> Seq<char> {
    "        { position: "@ + js_vector(light.position@) + ", intensity: "@ + fraction_text(
        light.intensity as nat,
        INTENSITY_SCALE as nat,
        2,
    ) + " },\n"@
}

/// The entries of the `lights` array, in order.
pub open spec fn js_lights(lights: Seq<Light>) -> Seq<char>
    decreases lights.len(),
{
    if lights.len() == 0 {
        Seq::empty()
    } else {
        js_lights(lights.drop_last()) + js_light(lights.last())
    }
}

/// One entry of the `particles` array: the position of a cell.
pub open spec fn js_particle(c: Vec3) -> Seq<char> {
    "        "@ + js_vector(c@) + ",\n"@
}

/// The entries of the `particles` array, in order.
pub open spec fn js_particles(cells: Seq<Vec3>) -> Seq<char>
    decreases cells.len(),
{
    if cells.len() == 0 {
        Seq::empty()
    } else {
        js_particles(cells.drop_last()) + js_particle(cells.last())
    }
}

/// The structured-data text of a scene: a comment line, then the object `DLA`
/// with the fields `bbox` (its `lower` and `upper` corner), `camera` (its
/// `position` and the point it looks at), `lights` (one entry per light) and
/// `particles` (one entry per cell).
pub open spec fn js_text(camera: Camera, lights: Seq<Light>, cluster: Cluster) -> Seq<char> {
    "// 3D DLA geometry\n\nvar DLA = {\n    bbox: {\n        lower: "@ + js_vector(
        cluster.bbox.lower,
    ) + ",\n        upper: "@ + js_vector(cluster.bbox.upper)
        + ",\n    },\n    camera: {\n        position: "@ + js_vector(camera.position@)
        + ",\n        look_at: "@ + js_vector(camera.target@) + ",\n    },\n    lights: [\n"@
        + js_lights(lights) + "    ],\n    particles: [\n"@ + js_particles(cluster.cells)
        + "    ],\n};\n"@
}

/// Appends `v` as an object with the fields `x`, `y` and `z`.
fn push_vector(out: &mut String, v: Vec3)
    ensures
        final(out)@ == old(out)@ + js_vector(v@),
{
    out.append("{ x: ");
    push_decimal(out, v.x);
    out.append(", y: ");
    push_decimal(out, v.y);
    out.append(", z: ");
    push_decimal(out, v.z);
    out.append(" }");
    assert(out@ =~= old(out)@ + js_vector(v@));
}

/// Appends the entry of `light`.
fn push_light(out: &mut String, light: &Light)
    ensures
        final(out)@ == old(out)@ + js_light(*light),
{
    out.append("        { position: ");
    push_vector(out, light.position);
    out.append(", intensity: ");
    push_fraction(out, light.intensity as u64, INTENSITY_SCALE, 2);
    out.append(" },\n");
    assert(out@ =~= old(out)@ + js_light(*light));
}

/// Appends the entry of the cell `c`.
fn push_particle(out: &mut String, c: Vec3)
    ensures
        final(out)@ == old(out)@ + js_particle(c),
{
    out.append("        ");
    push_vector(out, c);
    out.append(",\n");
    assert(out@ =~= old(out)@ + js_particle(c));
}

/// The scene in the structured-data format: bounding box, camera, every
/// light and every cell, the cells in the aggregate's order.
pub fn js_scene(scene: &Scene) -> (text: String)
    ensures
        text@ == js_text(scene.camera, scene.lights@, scene.aggregate@),
{
    let bbox = scene.aggregate.bbox();
    let cells = scene.aggregate.cells();
    let mut out = String::new();
    out.append("// 3D DLA geometry\n\nvar DLA = {\n    bbox: {\n        lower: ");
    push_vector(&mut out, bbox.lower());
    out.append(",\n        upper: ");
    push_vector(&mut out, bbox.upper());
    out.append(",\n    },\n    camera: {\n        position: ");
    push_vector(&mut out, scene.camera.position);
    out.append(",\n        look_at: ");
    push_vector(&mut out, scene.camera.target);
    out.append(",\n    },\n    lights: [\n");
    let ghost head = out@;
    let mut i: usize = 0;
    while i < scene.lights.len()
        invariant
            i <= scene.lights@.len(),
            out@ == head + js_lights(scene.lights@.take(i as int)),
        decreases scene.lights@.len() - i,
    {
        push_light(&mut out, &scene.lights[i]);
        assert(scene.lights@.take(i + 1).drop_last() =~= scene.lights@.take(i as int));
        i = i + 1;
    }
    assert(scene.lights@.take(scene.lights@.len() as int) =~= scene.lights@);
    out.append("    ],\n    particles: [\n");
    let ghost middle = out@;
    let mut j: usize = 0;
    while j < cells.len()
        invariant
            j <= cells@.len(),
            out@ == middle + js_particles(cells@.take(j as int)),
        decreases cells@.len() - j,
    {
        push_particle(&mut out, cells[j]);
        assert(cells@.take(j + 1).drop_last() =~= cells@.take(j as int));
        j = j + 1;
    }
    assert(cells@.take(cells@.len() as int) =~= cells@);
    out.append("    ],\n};\n");
    assert(out@ =~= js_text(scene.camera, scene.lights@, scene.aggregate@));
    out
}

} // verus!
