//! The finished aggregate: its occupied cells and the box that encloses them.

use crate::geometry::{BoundingBox, Box3, Point, Vec3, COORD_LIMIT};
use std::collections::HashSet;
use vstd::prelude::*;

verus! {

broadcast use vstd::std_specs::hash::group_hash_axioms;

/// What an aggregate is, mathematically: a sequence of cells and a box.
pub struct Cluster {
    pub cells: Seq<Vec3>,
    pub bbox: Box3,
}

impl Cluster {
    /// There is at least one cell, no position occurs twice, the box is
    /// valid and every cell lies inside it.
    pub open spec fn valid(self) -> bool {
        &&& self.cells.len() > 0
        &&& self.cells.no_duplicates()
        &&& self.bbox.valid()
        &&& self.encloses_all()
    }

    /// Every cell lies inside the box.
    pub open spec fn encloses_all(self) -> bool {
        forall|i: int| 0 <= i < self.cells.len() ==> self.bbox.contains(#[trigger] self.cells[i]@)
    }
}

/// Why a set of cells and a box do not make an aggregate.
#[derive(Clone, Copy, Debug, PartialEq, Eq, Structural)]
pub enum AggregateError {
    /// There is no cell.
    Empty,
    /// Some cell lies outside the bounding box.
    OutsideBox,
    /// Some position occurs more than once.
    Duplicate,
}

/// A finished aggregate: at least one occupied cell, every position once, and
/// a bounding box that encloses them all.
#[derive(Debug)]
pub struct Aggregate {
    cells: Vec<Vec3>,
    bbox: BoundingBox,
}

impl View for Aggregate {
    type V = Cluster;

    closed spec fn view(&self) -> Cluster {
        Cluster { cells: self.cells@, bbox: self.bbox@ }
    }
}

/// A number that stands for the position `p`; distinct positions inside the
/// supported coordinate range have distinct numbers.
spec fn position_key(p: Point) -> int {
    (p.x + COORD_LIMIT) * 0x1000_0000_0000_0000 + (p.y + COORD_LIMIT) * 0x4000_0000 + (p.z
        + COORD_LIMIT)
}

/// Positions with the same key are the same position.
proof fn lemma_position_key_injective(p: Point, q: Point)
    requires
        p.within(COORD_LIMIT as int),
        q.within(COORD_LIMIT as int),
        position_key(p) == position_key(q),
    ensures
        p == q,
{
}

/// The key of a position inside the supported coordinate range.
fn key_of(c: Vec3) -> (k: u128)
    requires
        c@.within(COORD_LIMIT as int),
    ensures
        k == position_key(c@),
{
    let x: u128 = (c.x + COORD_LIMIT) as u128;
    let y: u128 = (c.y + COORD_LIMIT) as u128;
    let z: u128 = (c.z + COORD_LIMIT) as u128;
    x * 0x1000_0000_0000_0000 + y * 0x4000_0000 + z
}

/// Whether the box encloses every cell.
fn encloses_all(cells: &Vec<Vec3>, bbox: &BoundingBox) -> (b: bool)
    ensures
        b == (Cluster { cells: cells@, bbox: bbox@ }).encloses_all(),
{
    let mut i: usize = 0;
    while i < cells.len()
        invariant
            i <= cells.len(),
            forall|j: int| 0 <= j < i ==> bbox@.contains(#[trigger] cells@[j]@),
        decreases cells.len() - i,
    {
        if !bbox.contains(cells[i]) {
            proof {
                let c = Cluster { cells: cells@, bbox: bbox@ };
                assert(!c.bbox.contains(c.cells[i as int]@));
            }
            return false;
        }
        i = i + 1;
    }
    true
}

/// Whether no position occurs twice among cells that all lie inside the
/// supported coordinate range.
fn all_distinct(cells: &Vec<Vec3>) -> (b: bool)
    requires
        forall|i: int| 0 <= i < cells@.len() ==> (#[trigger] cells@[i]@).within(COORD_LIMIT as int),
    ensures
        b == cells@.no_duplicates(),
{
    let mut seen: HashSet<u128> = HashSet::new();
    let mut i: usize = 0;
    while i < cells.len()
        invariant
            i <= cells.len(),
            forall|j: int|
                0 <= j < cells@.len() ==> (#[trigger] cells@[j]@).within(COORD_LIMIT as int),
            forall|a: int, b: int| 0 <= a < b < i ==> cells@[a] != cells@[b],
            forall|j: int| 0 <= j < i ==> seen@.contains(position_key(#[trigger] cells@[j]@) as u128),
            forall|k: u128|
                seen@.contains(k) ==> exists|j: int|
                    0 <= j < i && k == position_key(#[trigger] cells@[j]@),
        decreases cells.len() - i,
    {
        let k = key_of(cells[i]);
        let ghost before = seen@;
        let fresh = seen.insert(k);
        if !fresh {
            proof {
                let j = choose|j: int| 0 <= j < i && k == position_key(#[trigger] cells@[j]@);
                lemma_position_key_injective(cells@[j]@, cells@[i as int]@);
                assert(cells@[j] == cells@[i as int]);
            }
            return false;
        }
        proof {
            assert forall|a: int| 0 <= a < i implies cells@[a] != cells@[i as int] by {
                if cells@[a] == cells@[i as int] {
                    assert(before.contains(position_key(cells@[a]@) as u128));
                }
            }
        }
        i = i + 1;
    }
    true
}

impl Aggregate {
    /// What holds of every aggregate.
    #[verifier::type_invariant]
    pub open spec fn wf(self) -> bool {
        self@.valid()
    }

    /// The aggregate of `cells` enclosed by `bbox`.
    ///
    /// Fails with `Empty` when there is no cell, else with `OutsideBox` when
    /// some cell lies outside `bbox`, else with `Duplicate` when some position
    /// occurs twice.
    pub fn new(cells: Vec<Vec3>, bbox: BoundingBox) -> (r: Result<Aggregate, AggregateError>)
        ensures
            match r {
                Ok(a) => a@ == (Cluster { cells: cells@, bbox: bbox@ }) && a@.valid(),
                Err(AggregateError::Empty) => cells@.len() == 0,
                Err(AggregateError::OutsideBox) => cells@.len() > 0 && !(Cluster {
                    cells: cells@,
                    bbox: bbox@,
                }).encloses_all(),
                Err(AggregateError::Duplicate) => cells@.len() > 0 && (Cluster {
                    cells: cells@,
                    bbox: bbox@,
                }).encloses_all() && !cells@.no_duplicates(),
            },
    {
        proof {
            use_type_invariant(&bbox);
        }
        if cells.len() == 0 {
            return Err(AggregateError::Empty);
        }
        if !encloses_all(&cells, &bbox) {
            return Err(AggregateError::OutsideBox);
        }
        proof {
            assert forall|i: int| 0 <= i < cells@.len() implies (#[trigger] cells@[i]@).within(
                COORD_LIMIT as int,
            ) by {
                let c = Cluster { cells: cells@, bbox: bbox@ };
                assert(c.bbox.contains(c.cells[i]@));
            }
        }
        if !all_distinct(&cells) {
            return Err(AggregateError::Duplicate);
        }
        Ok(Aggregate { cells, bbox })
    }

    /// The occupied cells, in the order in which they were given.
    pub fn cells(&self) -> (cells: &Vec<Vec3>)
        ensures
            cells@ == self@.cells,
    {
        &self.cells
    }

    /// The box that encloses the cells.
    pub fn bbox(&self) -> (bbox: BoundingBox)
        ensures
            bbox@ == self@.bbox,
    {
        self.bbox
    }

    /// The number of occupied cells.
    pub fn len(&self) -> (n: usize)
        ensures
            n == self@.cells.len(),
            n >= 1,
    {
        proof {
            use_type_invariant(self);
        }
        self.cells.len()
    }
}

} // verus!
