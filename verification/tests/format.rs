use dla_scene::aggregate::Aggregate;
use dla_scene::csv::csv_scene;
use dla_scene::format::{distinct_formats, requested_formats, SceneFormat};
use dla_scene::geometry::{BoundingBox, Vec3};
use dla_scene::javascript::js_scene;
use dla_scene::povray::pov_scene;
use dla_scene::scene::Scene;

fn names(list: &[&str]) -> Vec<String> {
    list.iter().map(|s| s.to_string()).collect()
}

#[test]
fn every_format_has_its_names() {
    assert_eq!(SceneFormat::from_str("povray").unwrap(), SceneFormat::Povray);
    assert_eq!(SceneFormat::from_str("javascript").unwrap(), SceneFormat::Js);
    assert_eq!(SceneFormat::from_str("js").unwrap(), SceneFormat::Js);
    assert_eq!(SceneFormat::from_str("csv").unwrap(), SceneFormat::Csv);
}

#[test]
fn other_names_stand_for_no_format() {
    for name in ["", "pov", "Povray", "povray ", " csv", "CSV", "json", "javascript,csv"] {
        let unknown = SceneFormat::from_str(name).unwrap_err();
        assert_eq!(unknown.name, name);
    }
}

#[test]
fn unknown_format_says_its_name() {
    let unknown = SceneFormat::from_str("obj").unwrap_err();
    assert_eq!(unknown.message(), "`obj` is not a valid scene format");
    let unknown = SceneFormat::from_str("").unwrap_err();
    assert_eq!(unknown.message(), "`` is not a valid scene format");
}

#[test]
fn every_format_has_its_extension() {
    assert_eq!(SceneFormat::Povray.extension(), "pov");
    assert_eq!(SceneFormat::Js.extension(), "js");
    assert_eq!(SceneFormat::Csv.extension(), "csv");
}

#[test]
fn format_asked_for_twice_is_written_once() {
    assert_eq!(
        requested_formats(&names(&["povray", "povray"])).unwrap(),
        vec![SceneFormat::Povray]
    );
    assert_eq!(
        distinct_formats(&vec![SceneFormat::Povray, SceneFormat::Povray]),
        vec![SceneFormat::Povray]
    );
}

#[test]
fn formats_are_kept_in_the_order_of_their_first_mention() {
    assert_eq!(
        requested_formats(&names(&["csv", "js", "csv", "povray", "javascript", "povray"]))
            .unwrap(),
        vec![SceneFormat::Csv, SceneFormat::Js, SceneFormat::Povray]
    );
    assert_eq!(
        distinct_formats(&vec![
            SceneFormat::Js,
            SceneFormat::Csv,
            SceneFormat::Js,
            SceneFormat::Js,
            SceneFormat::Csv,
        ]),
        vec![SceneFormat::Js, SceneFormat::Csv]
    );
}

#[test]
fn no_format_asked_for_is_no_format_written() {
    assert_eq!(requested_formats(&vec![]).unwrap(), vec![]);
    assert_eq!(distinct_formats(&vec![]), vec![]);
}

#[test]
fn first_unknown_name_is_reported() {
    let unknown = requested_formats(&names(&["csv", "stl", "povray", "ply"])).unwrap_err();
    assert_eq!(unknown.name, "stl");
}

#[test]
fn rendering_in_a_format_is_that_format() {
    let bbox = BoundingBox::new(Vec3::new(-2, -2, -2), Vec3::new(2, 2, 2)).unwrap();
    let cells = vec![Vec3::new(0, 0, 0), Vec3::new(1, -1, 2)];
    let scene = Scene::new(Aggregate::new(cells, bbox).unwrap()).unwrap();
    assert_eq!(SceneFormat::Povray.render(&scene), pov_scene(&scene));
    assert_eq!(SceneFormat::Js.render(&scene), js_scene(&scene));
    assert_eq!(SceneFormat::Csv.render(&scene), csv_scene(&scene));
}
