use dla_scene::export::ExportRun;
use dla_scene::format::SceneFormat;

#[test]
fn run_writes_every_format_in_order() {
    let mut run = ExportRun::new(&vec![SceneFormat::Csv, SceneFormat::Povray, SceneFormat::Js]);
    assert!(!run.is_complete());
    assert_eq!(run.next(), Some(SceneFormat::Csv));
    assert_eq!(run.next(), Some(SceneFormat::Csv));
    run.record(true);
    assert_eq!(run.next(), Some(SceneFormat::Povray));
    run.record(true);
    assert!(!run.is_complete());
    assert_eq!(run.next(), Some(SceneFormat::Js));
    run.record(true);
    assert_eq!(run.next(), None);
    assert!(run.is_complete());
}

#[test]
fn run_writes_a_format_asked_for_twice_once() {
    let mut run = ExportRun::new(&vec![SceneFormat::Povray, SceneFormat::Povray]);
    assert_eq!(run.next(), Some(SceneFormat::Povray));
    run.record(true);
    assert_eq!(run.next(), None);
    assert!(run.is_complete());
}

#[test]
fn run_stops_at_first_failure() {
    let mut run = ExportRun::new(&vec![SceneFormat::Js, SceneFormat::Csv, SceneFormat::Povray]);
    assert_eq!(run.next(), Some(SceneFormat::Js));
    run.record(true);
    assert_eq!(run.next(), Some(SceneFormat::Csv));
    run.record(false);
    assert_eq!(run.next(), None);
    assert!(!run.is_complete());
    run.record(true);
    assert_eq!(run.next(), None);
    assert!(!run.is_complete());
}

#[test]
fn run_without_formats_is_complete() {
    let mut run = ExportRun::new(&vec![]);
    assert_eq!(run.next(), None);
    assert!(run.is_complete());
    run.record(false);
    assert!(run.is_complete());
}
