use dla_scene::aggregate::Aggregate;
use dla_scene::csv::csv_scene;
use dla_scene::geometry::{BoundingBox, Vec3};
use dla_scene::gradient::{Color, ColorBucket};
use dla_scene::javascript::js_scene;
use dla_scene::povray::{pov_document, pov_scene};
use dla_scene::scene::{Camera, Light, Scene};

fn scene_in(half: i64, cells: Vec<Vec3>) -> Scene {
    let bbox = BoundingBox::new(Vec3::new(-half, -half, -half), Vec3::new(half, half, half))
        .unwrap();
    Scene::new(Aggregate::new(cells, bbox).unwrap()).unwrap()
}

fn single_cell_scene() -> Scene {
    scene_in(1, vec![Vec3::new(0, 0, 0)])
}

fn count(text: &str, word: &str) -> usize {
    text.matches(word).count()
}

const POV_HEAD: &str = "// 3D DLA geometry

#version 3.7;

#include \"colors.inc\"

global_settings { assumed_gamma 1.0 }
#default{ finish { ambient 0.1 diffuse 0.9 } }

background { color Black }

";

#[test]
fn table_of_single_cell_is_one_line() {
    assert_eq!(csv_scene(&single_cell_scene()), "0,0,0\n");
}

#[test]
fn table_has_one_line_per_cell_in_order() {
    let scene = scene_in(
        20,
        vec![Vec3::new(1, 2, 3), Vec3::new(-1, -2, -3), Vec3::new(0, 10, -20), Vec3::new(0, 0, 0)],
    );
    assert_eq!(csv_scene(&scene), "1,2,3\n-1,-2,-3\n0,10,-20\n0,0,0\n");
}

#[test]
fn table_lines_read_back_as_the_cells() {
    let mut cells = Vec::new();
    for x in -2..=2 {
        for y in -11..=-9 {
            for z in 99..=101 {
                cells.push(Vec3::new(x, y, z));
            }
        }
    }
    let text = csv_scene(&scene_in(200, cells.clone()));
    assert!(text.ends_with('\n'));
    let read: Vec<Vec3> = text
        .lines()
        .map(|line| {
            let fields: Vec<i64> = line.split(',').map(|f| f.parse().unwrap()).collect();
            assert_eq!(fields.len(), 3);
            Vec3::new(fields[0], fields[1], fields[2])
        })
        .collect();
    assert_eq!(read, cells);
    let mut lines: Vec<&str> = text.lines().collect();
    lines.sort();
    lines.dedup();
    assert_eq!(lines.len(), cells.len());
}

#[test]
fn table_holds_nothing_but_the_cells() {
    let text = csv_scene(&single_cell_scene());
    assert_eq!(count(&text, "\n"), 1);
    assert!(text.chars().all(|c| c.is_ascii_digit() || c == ',' || c == '-' || c == '\n'));
}

#[test]
fn object_of_single_cell_scene() {
    let expected = "// 3D DLA geometry

var DLA = {
    bbox: {
        lower: { x: -1, y: -1, z: -1 },
        upper: { x: 1, y: 1, z: 1 },
    },
    camera: {
        position: { x: -2, y: 0, z: -3 },
        look_at: { x: 0, y: 0, z: 0 },
    },
    lights: [
        { position: { x: -2, y: 0, z: -2 }, intensity: 1 },
        { position: { x: 0, y: 0, z: -4 }, intensity: 0.2 },
        { position: { x: 2, y: -2, z: -2 }, intensity: 0.75 },
        { position: { x: -2, y: 2, z: 2 }, intensity: 0.5 },
        { position: { x: 0, y: -3, z: 0 }, intensity: 0.75 },
        { position: { x: 0, y: 3, z: 0 }, intensity: 0.5 },
    ],
    particles: [
        { x: 0, y: 0, z: 0 },
    ],
};
";
    assert_eq!(js_scene(&single_cell_scene()), expected);
}

#[test]
fn object_lists_every_cell_in_order() {
    let scene = scene_in(5, vec![Vec3::new(3, 0, 0), Vec3::new(0, -4, 0), Vec3::new(0, 0, 5)]);
    let text = js_scene(&scene);
    let particles = text.split("    particles: [\n").nth(1).unwrap();
    assert_eq!(
        particles,
        "        { x: 3, y: 0, z: 0 },\n        { x: 0, y: -4, z: 0 },\n        { x: 0, y: 0, z: 5 },\n    ],\n};\n"
    );
}

#[test]
fn object_of_scene_with_other_lights() {
    let bbox = BoundingBox::new(Vec3::new(0, 0, 0), Vec3::new(2, 2, 2)).unwrap();
    let scene = Scene {
        camera: Camera { position: Vec3::new(9, 8, 7), target: Vec3::new(1, 1, 1) },
        lights: vec![Light { position: Vec3::new(-5, 5, -5), intensity: 125 }],
        aggregate: Aggregate::new(vec![Vec3::new(1, 1, 1)], bbox).unwrap(),
    };
    let expected = "// 3D DLA geometry

var DLA = {
    bbox: {
        lower: { x: 0, y: 0, z: 0 },
        upper: { x: 2, y: 2, z: 2 },
    },
    camera: {
        position: { x: 9, y: 8, z: 7 },
        look_at: { x: 1, y: 1, z: 1 },
    },
    lights: [
        { position: { x: -5, y: 5, z: -5 }, intensity: 1.25 },
    ],
    particles: [
        { x: 1, y: 1, z: 1 },
    ],
};
";
    assert_eq!(js_scene(&scene), expected);
}

#[test]
fn rendering_of_single_cell_scene() {
    let expected = format!(
        "{}{}",
        POV_HEAD,
        "// scene bbox <-1, -1, -1> <1, 1, 1>

camera {
  location <-2, 0, -3>
  look_at <0, 0, 0>
}

light_source { <-2, 0, -2> color rgb <1, 1, 1> }
light_source { <0, 0, -4> color rgb <0.2, 0.2, 0.2> }
light_source { <2, -2, -2> color rgb <0.75, 0.75, 0.75> }
light_source { <-2, 2, 2> color rgb <0.5, 0.5, 0.5> }
light_source { <0, -3, 0> color rgb <0.75, 0.75, 0.75> }
light_source { <0, 3, 0> color rgb <0.5, 0.5, 0.5> }

union {
  sphere { <0, 0, 0>, 1 }
  texture {
    pigment { color rgb<0.113333, 0.233333, 0.01> }
    finish { phong 0.5 }
  }
}
"
    );
    assert_eq!(pov_scene(&single_cell_scene()), expected);
}

#[test]
fn rendering_of_single_cell_scene_has_one_sphere() {
    let text = pov_scene(&single_cell_scene());
    assert_eq!(count(&text, "sphere"), 1);
    assert_eq!(count(&text, "union"), 1);
    assert_eq!(count(&text, "light_source"), 6);
    assert_eq!(count(&text, "camera"), 1);
}

#[test]
fn rendering_groups_cells_by_shell_and_skips_empty_shells() {
    let cells = vec![
        Vec3::new(5, 0, 0),
        Vec3::new(4, 0, 0),
        Vec3::new(3, 0, 0),
        Vec3::new(2, 0, 0),
        Vec3::new(1, 0, 0),
        Vec3::new(0, 0, 0),
    ];
    let text = pov_scene(&scene_in(5, cells));
    let geometry = text.split("> }\n\nunion").nth(1).unwrap();
    let expected = " {
  sphere { <0, 0, 0>, 1 }
  sphere { <1, 0, 0>, 1 }
  sphere { <2, 0, 0>, 1 }
  texture {
    pigment { color rgb<0.113333, 0.233333, 0.01> }
    finish { phong 0.5 }
  }
}

union {
  sphere { <3, 0, 0>, 1 }
  texture {
    pigment { color rgb<0.34, 0.7, 0.03> }
    finish { phong 0.5 }
  }
}

union {
  sphere { <4, 0, 0>, 1 }
  texture {
    pigment { color rgb<0.283333, 0.28, 0> }
    finish { phong 0.5 }
  }
}

union {
  sphere { <5, 0, 0>, 1 }
  texture {
    pigment { color rgb<0.85, 0.84, 0> }
    finish { phong 0.5 }
  }
}
";
    assert_eq!(geometry, expected);
}

#[test]
fn rendering_has_one_sphere_per_cell() {
    let mut cells = Vec::new();
    for x in -3..=3 {
        for y in -3..=3 {
            cells.push(Vec3::new(x, y, x * y));
        }
    }
    let text = pov_scene(&scene_in(9, cells.clone()));
    assert_eq!(count(&text, "  sphere { <"), cells.len());
    for c in &cells {
        assert_eq!(count(&text, &format!("  sphere {{ <{}, {}, {}>, 1 }}\n", c.x, c.y, c.z)), 1);
    }
}

#[test]
fn rendering_of_given_buckets() {
    let scene = single_cell_scene();
    let buckets = vec![
        ColorBucket { cells: vec![], color: Color { r: 300, g: 0, b: 0 } },
        ColorBucket {
            cells: vec![Vec3::new(7, -8, 9), Vec3::new(1, 2, 3)],
            color: Color { r: 150, g: 1, b: 299 },
        },
    ];
    let text = pov_document(&scene, &buckets);
    let geometry = text.split("> }\n\nunion").nth(1).unwrap();
    let expected = " {
  sphere { <7, -8, 9>, 1 }
  sphere { <1, 2, 3>, 1 }
  texture {
    pigment { color rgb<0.5, 0.003333, 0.996666> }
    finish { phong 0.5 }
  }
}
";
    assert_eq!(geometry, expected);
    assert_eq!(count(&text, "union"), 1);
}

#[test]
fn rendering_without_buckets_has_no_geometry() {
    let text = pov_document(&single_cell_scene(), &vec![]);
    assert!(text.starts_with(POV_HEAD));
    assert!(text.ends_with("light_source { <0, 3, 0> color rgb <0.5, 0.5, 0.5> }\n"));
    assert_eq!(count(&text, "sphere"), 0);
}

#[test]
fn rendering_is_repeatable() {
    let scene = scene_in(4, vec![Vec3::new(1, 2, 3), Vec3::new(-3, -2, -1), Vec3::new(0, 0, 0)]);
    assert_eq!(pov_scene(&scene), pov_scene(&scene));
    assert_eq!(js_scene(&scene), js_scene(&scene));
    assert_eq!(csv_scene(&scene), csv_scene(&scene));
}
