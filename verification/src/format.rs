//! The output formats: their names, their file extensions, and the choice
//! among them.

use crate::csv::{csv_scene, csv_text};
use crate::javascript::{js_scene, js_text};
use crate::povray::{pov_scene, pov_scene_text};
use crate::scene::Scene;
use vstd::prelude::*;
use vstd::string::*;

verus! {

/// A format in which a scene can be written.
#[derive(Debug, Copy, Clone, PartialEq, Eq, Structural, Hash)]
pub enum SceneFormat {
    /// The renderer-description format.
    Povray,
    /// The structured-data format.
    Js,
    /// The tabular format.
    Csv,
}

/// A name that stands for no format.
#[derive(Debug)]
pub struct UnknownFormat {
    pub name: String,
}

/// The format that `name` stands for: `povray`, `javascript` or `js`, and
/// `csv` are the names there are.
pub open spec fn format_named(name: Seq<char>) -> Option<SceneFormat> {
    if name == "povray"@ {
        Some(SceneFormat::Povray)
    } else if name == "javascript"@ || name == "js"@ {
        Some(SceneFormat::Js)
    } else if name == "csv"@ {
        Some(SceneFormat::Csv)
    } else {
        None
    }
}

/// The last part of the name of a file in the given format.
pub open spec fn extension_of(format: SceneFormat) -> Seq<char> {
    match format {
        SceneFormat::Povray => "pov"@,
        SceneFormat::Js => "js"@,
        SceneFormat::Csv => "csv"@,
    }
}

/// The formats of `formats`, each once, in the order in which they first
/// occur.
pub open spec fn distinct(formats: Seq<SceneFormat>) -> Seq<SceneFormat>
    decreases formats.len(),
{
    if formats.len() == 0 {
        Seq::empty()
    } else {
        let before = distinct(formats.drop_last());
        if before.contains(formats.last()) {
            before
        } else {
            before.push(formats.last())
        }
    }
}

/// `text` is the scene in the given format.
pub open spec fn is_rendering(text: Seq<char>, format: SceneFormat, scene: Scene) -> bool {
    match format {
        SceneFormat::Povray => text == pov_scene_text(scene),
        SceneFormat::Js => text == js_text(scene.camera, scene.lights@, scene.aggregate@),
        SceneFormat::Csv => text == csv_text(scene.aggregate@.cells),
    }
}

/// Whether the two texts are the same.
fn same_text(a: &str, b: &str) -> (same: bool)
    ensures
        same == (a@ == b@),
{
    let left: String = a.to_owned();
    let right: String = b.to_owned();
    left == right
}

impl UnknownFormat {
    /// What to tell the user: the name between backticks, and that it is not
    /// a valid scene format.
    pub fn message(&self) -> (text: String)
        ensures
            text@ == "`"@ + self.name@ + "` is not a valid scene format"@,
    {
        let mut text = String::new();
        text.append("`");
        text.append(self.name.as_str());
        text.append("` is not a valid scene format");
        assert(text@ =~= "`"@ + self.name@ + "` is not a valid scene format"@);
        text
    }
}

impl SceneFormat {
    /// The format that `s` names, or the name itself when it names none.
    pub fn from_str(s: &str) -> (r: Result<SceneFormat, UnknownFormat>)
        ensures
            match r {
                Ok(format) => format_named(s@) == Some(format),
                Err(unknown) => format_named(s@) is None && unknown.name@ == s@,
            },
    {
        if same_text(s, "povray") {
            Ok(SceneFormat::Povray)
        } else if same_text(s, "javascript") || same_text(s, "js") {
            Ok(SceneFormat::Js)
        } else if same_text(s, "csv") {
            Ok(SceneFormat::Csv)
        } else {
            Err(UnknownFormat { name: s.to_owned() })
        }
    }

    /// The last part of the name of a file in this format: `pov`, `js` or
    /// `csv`.
    pub fn extension(self) -> (ext: &'static str)
        ensures
            ext@ == extension_of(self),
    {
        match self {
            SceneFormat::Povray => "pov",
            SceneFormat::Js => "js",
            SceneFormat::Csv => "csv",
        }
    }

    /// The scene in this format.
    pub fn render(self, scene: &Scene) -> (text: String)
        ensures
            is_rendering(text@, self, *scene),
    {
        match self {
            SceneFormat::Povray => pov_scene(scene),
            SceneFormat::Js => js_scene(scene),
            SceneFormat::Csv => csv_scene(scene),
        }
    }
}

/// Whether `format` is among `formats`.
fn holds(formats: &Vec<SceneFormat>, format: SceneFormat) -> (found: bool)
    ensures
        found == formats@.contains(format),
{
    let mut i: usize = 0;
    while i < formats.len()
        invariant
            i <= formats@.len(),
            forall|j: int| 0 <= j < i ==> formats@[j] != format,
        decreases formats@.len() - i,
    {
        if formats[i] == format {
            return true;
        }
        i = i + 1;
    }
    false
}

/// The formats to write: those of `formats`, each once, in the order in
/// which they first occur.
pub fn distinct_formats(formats: &Vec<SceneFormat>) -> (chosen: Vec<SceneFormat>)
    ensures
        chosen@ == distinct(formats@),
{
    let mut chosen: Vec<SceneFormat> = Vec::new();
    let mut i: usize = 0;
    assert(formats@.take(0) =~= Seq::<SceneFormat>::empty());
    while i < formats.len()
        invariant
            i <= formats@.len(),
            chosen@ == distinct(formats@.take(i as int)),
        decreases formats@.len() - i,
    {
        assert(formats@.take(i + 1).drop_last() =~= formats@.take(i as int));
        if !holds(&chosen, formats[i]) {
            chosen.push(formats[i]);
        }
        i = i + 1;
    }
    assert(formats@.take(formats@.len() as int) =~= formats@);
    chosen
}

/// Whether every name stands for a format.
pub open spec fn all_named(names: Seq<String>) -> bool {
    forall|i: int| 0 <= i < names.len() ==> format_named(#[trigger] names[i]@) is Some
}

/// The formats that the names stand for, in order.
pub open spec fn formats_named(names: Seq<String>) -> Seq<SceneFormat> {
    Seq::new(names.len(), |i: int| format_named(names[i]@).unwrap())
}

/// The formats to write for the names a user gave: the formats they stand
/// for, each once, in the order in which they first occur. Fails with the
/// first name that stands for no format.
pub fn requested_formats(names: &Vec<String>) -> (r: Result<Vec<SceneFormat>, UnknownFormat>)
    ensures
        match r {
            Ok(chosen) => all_named(names@) && chosen@ == distinct(formats_named(names@)),
            Err(unknown) => exists|i: int|
                {
                    &&& 0 <= i < names@.len()
                    &&& format_named(#[trigger] names@[i]@) is None
                    &&& unknown.name@ == names@[i]@
                    &&& all_named(names@.take(i))
                },
        },
{
    let mut formats: Vec<SceneFormat> = Vec::new();
    let mut i: usize = 0;
    while i < names.len()
        invariant
            i <= names@.len(),
            all_named(names@.take(i as int)),
            formats@ == formats_named(names@.take(i as int)),
        decreases names@.len() - i,
    {
        match SceneFormat::from_str(names[i].as_str()) {
            Ok(format) => {
                formats.push(format);
            },
            Err(unknown) => {
                return Err(unknown);
            },
        }
        proof {
            let next = names@.take(i + 1);
            assert forall|j: int| 0 <= j < next.len() implies format_named(
                #[trigger] next[j]@,
            ) is Some by {
                if j < i {
                    assert(next[j] == names@.take(i as int)[j]);
                }
            }
            assert(formats@ =~= formats_named(next));
        }
        i = i + 1;
    }
    assert(names@.take(names@.len() as int) =~= names@);
    Ok(distinct_formats(&formats))
}

/// Among distinct formats none occurs twice, and they are the formats that
/// were asked for: asking for a format twice is asking for it once.
pub proof fn lemma_distinct(formats: Seq<SceneFormat>)
    ensures
        distinct(formats).no_duplicates(),
        forall|f: SceneFormat| distinct(formats).contains(f) <==> formats.contains(f),
        distinct(formats).len() <= formats.len(),
        distinct(formats + formats) == distinct(formats),
    decreases formats.len(),
{
    lemma_distinct_members(formats);
    lemma_distinct_again(formats, formats);
}

/// Among distinct formats none occurs twice, and they are the formats that
/// were asked for.
proof fn lemma_distinct_members(formats: Seq<SceneFormat>)
    ensures
        distinct(formats).no_duplicates(),
        forall|f: SceneFormat| distinct(formats).contains(f) <==> formats.contains(f),
        distinct(formats).len() <= formats.len(),
    decreases formats.len(),
{
    if formats.len() > 0 {
        let rest = formats.drop_last();
        let last = formats.last();
        lemma_distinct_members(rest);
        let before = distinct(rest);
        assert forall|f: SceneFormat| distinct(formats).contains(f) <==> formats.contains(f) by {
            if formats.contains(f) {
                let i = choose|i: int| 0 <= i < formats.len() && formats[i] == f;
                if i < rest.len() {
                    assert(rest[i] == f);
                    assert(rest.contains(f));
                    assert(before.contains(f));
                    let j = choose|j: int| 0 <= j < before.len() && before[j] == f;
                    assert(distinct(formats)[j] == f);
                } else {
                    if !before.contains(last) {
                        assert(distinct(formats)[before.len() as int] == f);
                    }
                }
            }
            if distinct(formats).contains(f) {
                let j = choose|j: int| 0 <= j < distinct(formats).len() && distinct(formats)[j] == f;
                if j < before.len() {
                    assert(before[j] == f);
                    assert(rest.contains(f));
                    let i = choose|i: int| 0 <= i < rest.len() && rest[i] == f;
                    assert(formats[i] == f);
                } else {
                    assert(formats[formats.len() - 1] == f);
                }
            }
        }
    }
}

/// Formats asked for again add nothing.
proof fn lemma_distinct_again(formats: Seq<SceneFormat>, again: Seq<SceneFormat>)
    requires
        forall|i: int| 0 <= i < again.len() ==> formats.contains(#[trigger] again[i]),
    ensures
        distinct(formats + again) == distinct(formats),
    decreases again.len(),
{
    if again.len() == 0 {
        assert(formats + again =~= formats);
    } else {
        let rest = again.drop_last();
        assert forall|i: int| 0 <= i < rest.len() implies formats.contains(#[trigger] rest[i]) by {
            assert(rest[i] == again[i]);
        }
        lemma_distinct_again(formats, rest);
        lemma_distinct_members(formats);
        assert((formats + again).drop_last() =~= formats + rest);
        assert((formats + again).last() == again.last());
        assert(formats.contains(again[again.len() - 1]));
    }
}

} // verus!
