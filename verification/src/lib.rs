//! Scenes of finished 3D lattice aggregates, and their export as text.
//!
//! An [`aggregate::Aggregate`] is a set of occupied lattice cells inside a
//! bounding box. [`scene::Scene::new`] places a camera and six lights around
//! it, from the bounding box alone. A scene can be written in three formats:
//!
//! - [`povray::pov_scene`]: a renderer description, with the cells as spheres
//!   that are grouped and colored by their distance from the center of the
//!   bounding box ([`gradient::gradient_buckets`]);
//! - [`javascript::js_scene`]: the whole scene as one object literal;
//! - [`csv::csv_scene`]: one line `x,y,z` per cell.
//!
//! [`format::SceneFormat`] names the formats, and an [`export::ExportRun`]
//! keeps track of which of the requested formats is to be written next.
//!
//! All numbers are integers: coordinates are lattice coordinates, light
//! intensities count hundredths and color components three-hundredths of
//! full intensity. The texts write them in decimal notation ([`text`]).

pub mod aggregate;
pub mod csv;
pub mod export;
pub mod format;
pub mod geometry;
pub mod gradient;
pub mod gradient_laws;
pub mod javascript;
pub mod ordering;
pub mod povray;
pub mod scene;
pub mod text;
