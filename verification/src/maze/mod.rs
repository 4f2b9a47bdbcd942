//! The maze model: the square grid, the carving algorithms, solving and
//! shape figures.

pub mod algorithms;
pub mod grid;
pub mod playback;
pub mod solve;
pub mod stats;
pub mod walks;

use vstd::prelude::*;

verus! {

/// What the user asks for; the algorithm carves corridors, the kind decides
/// what happens around that carving.
#[derive(Clone, Copy, PartialEq, Eq, Debug, Structural)]
pub enum MazeKind {
    Perfect,
    Imperfect,
    Dungeon,
}

impl MazeKind {
    pub const ALL: [MazeKind; 3] = [MazeKind::Perfect, MazeKind::Imperfect, MazeKind::Dungeon];

    pub open spec fn spec_label(self) -> Seq<char> {
        match self {
            MazeKind::Perfect => "Perfect (no loops)"@,
            MazeKind::Imperfect => "Imperfect (loops)"@,
            MazeKind::Dungeon => "Dungeon (rooms and doors)"@,
        }
    }

    pub fn label(self) -> (text: &'static str)
        ensures
            text@ == self.spec_label(),
    {
        match self {
            MazeKind::Perfect => "Perfect (no loops)",
            MazeKind::Imperfect => "Imperfect (loops)",
            MazeKind::Dungeon => "Dungeon (rooms and doors)",
        }
    }

    pub open spec fn spec_description(self) -> Seq<char> {
        match self {
            MazeKind::Perfect => "Exactly one path between any two squares."@,
            MazeKind::Imperfect => "Dead ends are knocked through, creating loops and alternative routes."@,
            MazeKind::Dungeon => "Rooms joined by doors and winding corridors; dead-end corridors are removed."@,
        }
    }

    pub fn description(self) -> (text: &'static str)
        ensures
            text@ == self.spec_description(),
    {
        match self {
            MazeKind::Perfect => "Exactly one path between any two squares.",
            MazeKind::Imperfect => "Dead ends are knocked through, creating loops and alternative routes.",
            MazeKind::Dungeon => "Rooms joined by doors and winding corridors; dead-end corridors are removed.",
        }
    }
}

} // verus!
