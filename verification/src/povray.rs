//! The renderer-description format: camera, lights and the cells as spheres,
//! grouped and colored by the gradient.

use crate::geometry::{Box3, Point, Vec3};
use crate::gradient::{
    gradient_buckets, gradient_of, is_gradient, shells_of, Color, ColorBucket, Shell, COLOR_SCALE,
};
use crate::scene::{Camera, Light, Scene, INTENSITY_SCALE};
use crate::text::{decimal, fraction_text, push_decimal, push_fraction};
use vstd::prelude::*;
use vstd::string::*;

verus! {

/// What every renderer description begins with: a comment, the language
/// version, the color definitions, and the global settings of gamma, finish
/// and background.
pub const PREAMBLE: &'static str = "// 3D DLA geometry\n\n\
    #version 3.7;\n\n\
    #include \"colors.inc\"\n\n\
    global_settings { assumed_gamma 1.0 }\n\
    #default{ finish { ambient 0.1 diffuse 0.9 } }\n\n\
    background { color Black }\n\n";

/// A point as a vector literal: `<x, y, z>`.
pub open spec fn pov_vector(p: Point) -> Seq<char> {
    "<"@ + decimal(p.x) + ", "@ + decimal(p.y) + ", "@ + decimal(p.z) + ">"@
}

/// The statement of one light: its position, and its intensity as a gray.
pub open spec fn pov_light(light: Light) -> Seq<char> {
    let gray = fraction_text(light.intensity as nat, INTENSITY_SCALE as nat, 2);
    "light_source { "@ + pov_vector(light.position@) + " color rgb <"@ + gray + ", "@ + gray
        + ", "@ + gray + "> }\n"@
}

/// The statements of the lights, in order.
pub open spec fn pov_lights(lights: Seq<Light>) -> Seq<char>
    decreases lights.len(),
{
    if lights.len() == 0 {
        Seq::empty()
    } else {
        pov_lights(lights.drop_last()) + pov_light(lights.last())
    }
}

/// The statement of one cell: a sphere of radius 1 at its position.
pub open spec fn pov_sphere(c: Vec3) -> Seq<char> {
    "  sphere { "@ + pov_vector(c@) + ", 1 }\n"@
}

/// The statements of the cells, in order.
pub open spec fn pov_spheres(cells: Seq<Vec3>) -> Seq<char>
    decreases cells.len(),
{
    if cells.len() == 0 {
        Seq::empty()
    } else {
        pov_spheres(cells.drop_last()) + pov_sphere(cells.last())
    }
}

/// Number of digits behind the point with which a color component is
/// written.
pub const COLOR_PLACES: u8 = 6;

/// A color as a vector literal; every component is written as a fraction of
/// full intensity, with up to `COLOR_PLACES` digits behind the point.
pub open spec fn pov_color(color: Color) -> Seq<char> {
    "<"@ + fraction_text(color.r as nat, COLOR_SCALE as nat, COLOR_PLACES as nat) + ", "@
        + fraction_text(color.g as nat, COLOR_SCALE as nat, COLOR_PLACES as nat) + ", "@
        + fraction_text(color.b as nat, COLOR_SCALE as nat, COLOR_PLACES as nat) + ">"@
}

/// The group of one shell: its cells as spheres and its color as their
/// texture. A shell without cells has no group.
pub open spec fn pov_union(shell: Shell) -> Seq<char> {
    if shell.cells.len() == 0 {
        Seq::empty()
    } else {
        "\nunion {\n"@ + pov_spheres(shell.cells) + "  texture {\n    pigment { color rgb"@
            + pov_color(shell.color) + " }\n    finish { phong 0.5 }\n  }\n}\n"@
    }
}

/// The groups of the shells, in order.
pub open spec fn pov_unions(shells: Seq<Shell>) -> Seq<char>
    decreases shells.len(),
{
    if shells.len() == 0 {
        Seq::empty()
    } else {
        pov_unions(shells.drop_last()) + pov_union(shells.last())
    }
}

/// The renderer-description text of a scene: the global settings, the
/// bounding box as a comment, the camera, one statement per light, and one
/// group per shell that holds a cell.
pub open spec fn pov_text(
    camera: Camera,
    lights: Seq<Light>,
    bbox: Box3,
    shells: Seq<Shell>,
) -> Seq<char> {
    PREAMBLE@ + "// scene bbox "@ + pov_vector(bbox.lower) + " "@ + pov_vector(bbox.upper)
        + "\n\ncamera {\n  location "@ + pov_vector(camera.position@) + "\n  look_at "@
        + pov_vector(camera.target@) + "\n}\n\n"@ + pov_lights(lights) + pov_unions(shells)
}

/// The renderer-description text of a scene whose geometry is the gradient of
/// its aggregate around the center of its bounding box.
pub open spec fn pov_scene_text(scene: Scene) -> Seq<char> {
    pov_text(
        scene.camera,
        scene.lights@,
        scene.aggregate@.bbox,
        gradient_of(scene.aggregate@.cells, scene.aggregate@.bbox.center()),
    )
}

/// Appends `v` as a vector literal.
fn push_vector(out: &mut String, v: Vec3)
    ensures
        final(out)@ == old(out)@ + pov_vector(v@),
{
    out.append("<");
    push_decimal(out, v.x);
    out.append(", ");
    push_decimal(out, v.y);
    out.append(", ");
    push_decimal(out, v.z);
    out.append(">");
    assert(out@ =~= old(out)@ + pov_vector(v@));
}

/// Appends the statement of `light`.
fn push_light(out: &mut String, light: &Light)
    ensures
        final(out)@ == old(out)@ + pov_light(*light),
{
    let gray: u64 = light.intensity as u64;
    out.append("light_source { ");
    push_vector(out, light.position);
    out.append(" color rgb <");
    push_fraction(out, gray, INTENSITY_SCALE, 2);
    out.append(", ");
    push_fraction(out, gray, INTENSITY_SCALE, 2);
    out.append(", ");
    push_fraction(out, gray, INTENSITY_SCALE, 2);
    out.append("> }\n");
    assert(out@ =~= old(out)@ + pov_light(*light));
}

/// Appends the statement of the cell `c`.
fn push_sphere(out: &mut String, c: Vec3)
    ensures
        final(out)@ == old(out)@ + pov_sphere(c),
{
    out.append("  sphere { ");
    push_vector(out, c);
    out.append(", 1 }\n");
    assert(out@ =~= old(out)@ + pov_sphere(c));
}

/// Appends `color` as a vector literal.
fn push_color(out: &mut String, color: Color)
    ensures
        final(out)@ == old(out)@ + pov_color(color),
{
    out.append("<");
    push_fraction(out, color.r as u64, COLOR_SCALE, COLOR_PLACES);
    out.append(", ");
    push_fraction(out, color.g as u64, COLOR_SCALE, COLOR_PLACES);
    out.append(", ");
    push_fraction(out, color.b as u64, COLOR_SCALE, COLOR_PLACES);
    out.append(">");
    assert(out@ =~= old(out)@ + pov_color(color));
}

/// Appends the group of `bucket`, if it holds a cell.
fn push_union(out: &mut String, bucket: &ColorBucket)
    ensures
        final(out)@ == old(out)@ + pov_union(bucket@),
{
    if bucket.cells.len() == 0 {
        assert(out@ =~= old(out)@ + pov_union(bucket@));
        return ;
    }
    out.append("\nunion {\n");
    let ghost head = out@;
    let mut i: usize = 0;
    while i < bucket.cells.len()
        invariant
            i <= bucket.cells@.len(),
            out@ == head + pov_spheres(bucket.cells@.take(i as int)),
        decreases bucket.cells@.len() - i,
    {
        push_sphere(out, bucket.cells[i]);
        assert(bucket.cells@.take(i + 1).drop_last() =~= bucket.cells@.take(i as int));
        i = i + 1;
    }
    assert(bucket.cells@.take(bucket.cells@.len() as int) =~= bucket.cells@);
    out.append("  texture {\n    pigment { color rgb");
    push_color(out, bucket.color);
    out.append(" }\n    finish { phong 0.5 }\n  }\n}\n");
    assert(out@ =~= old(out)@ + pov_union(bucket@));
}

/// The renderer-description text of the scene's camera, lights and bounding
/// box, with the given buckets as its geometry.
pub fn pov_document(scene: &Scene, buckets: &Vec<ColorBucket>) -> (text: String)
    ensures
        text@ == pov_text(
            scene.camera,
            scene.lights@,
            scene.aggregate@.bbox,
            shells_of(buckets@),
        ),
{
    let bbox = scene.aggregate.bbox();
    let mut out = String::new();
    out.append(PREAMBLE);
    out.append("// scene bbox ");
    push_vector(&mut out, bbox.lower());
    out.append(" ");
    push_vector(&mut out, bbox.upper());
    out.append("\n\ncamera {\n  location ");
    push_vector(&mut out, scene.camera.position);
    out.append("\n  look_at ");
    push_vector(&mut out, scene.camera.target);
    out.append("\n}\n\n");
    let ghost head = out@;
    let mut i: usize = 0;
    while i < scene.lights.len()
        invariant
            i <= scene.lights@.len(),
            out@ == head + pov_lights(scene.lights@.take(i as int)),
        decreases scene.lights@.len() - i,
    {
        push_light(&mut out, &scene.lights[i]);
        assert(scene.lights@.take(i + 1).drop_last() =~= scene.lights@.take(i as int));
        i = i + 1;
    }
    assert(scene.lights@.take(scene.lights@.len() as int) =~= scene.lights@);
    let ghost middle = out@;
    let ghost shells = shells_of(buckets@);
    let mut j: usize = 0;
    while j < buckets.len()
        invariant
            j <= buckets@.len(),
            shells == shells_of(buckets@),
            out@ == middle + pov_unions(shells.take(j as int)),
        decreases buckets@.len() - j,
    {
        push_union(&mut out, &buckets[j]);
        assert(shells.take(j + 1).drop_last() =~= shells.take(j as int));
        assert(shells.take(j + 1).last() == buckets@[j as int]@);
        j = j + 1;
    }
    assert(shells.take(shells.len() as int) =~= shells);
    assert(out@ =~= pov_text(scene.camera, scene.lights@, scene.aggregate@.bbox, shells));
    out
}

/// The scene in the renderer-description format. Its geometry is the color
/// gradient of the aggregate around the center of its bounding box: one group
/// of spheres for every shell of the gradient that holds a cell, nearest
/// shell first, the cells of a shell by ascending distance.
pub fn pov_scene(scene: &Scene) -> (text: String)
    ensures
        text@ == pov_scene_text(*scene),
        is_gradient(
            gradient_of(scene.aggregate@.cells, scene.aggregate@.bbox.center()),
            scene.aggregate@.cells,
            scene.aggregate@.bbox.center(),
        ),
{
    let buckets = gradient_buckets(&scene.aggregate);
    pov_document(scene, &buckets)
}

} // verus!
