//! Lanes a champion can be played in, and sets of lanes.

use vstd::prelude::*;

verus! {

/// One of the five positional roles a champion may be played in.
#[derive(Clone, Copy, Debug, PartialEq, Eq, Structural)]
pub enum Lane {
    Top,
    Jungle,
    Mid,
    Bottom,
    Support,
}

/// A set of lanes, one membership flag per lane.
///
/// A champion's eligibility for a player is a set of lanes; iteration order
/// over a set is always the declaration order of [`Lane`].
#[derive(Clone, Copy, Debug, PartialEq, Eq, Structural)]
pub struct LaneSet {
    pub top: bool,
    pub jungle: bool,
    pub mid: bool,
    pub bottom: bool,
    pub support: bool,
}

/// Whether `lane` is a member of the lane set `ls`.
pub open spec fn lane_in(ls: LaneSet, lane: Lane) -> bool {
    match lane {
        Lane::Top => ls.top,
        Lane::Jungle => ls.jungle,
        Lane::Mid => ls.mid,
        Lane::Bottom => ls.bottom,
        Lane::Support => ls.support,
    }
}

impl LaneSet {
    /// The empty set of lanes.
    pub fn empty() -> (r: LaneSet)
        ensures
            forall|lane: Lane| !lane_in(r, lane),
    {
        LaneSet { top: false, jungle: false, mid: false, bottom: false, support: false }
    }

    /// Membership test for one lane.
    pub fn contains(&self, lane: Lane) -> (r: bool)
        ensures
            r == lane_in(*self, lane),
    {
        match lane {
            Lane::Top => self.top,
            Lane::Jungle => self.jungle,
            Lane::Mid => self.mid,
            Lane::Bottom => self.bottom,
            Lane::Support => self.support,
        }
    }

    /// The set extended with one lane.
    pub fn with(self, lane: Lane) -> (r: LaneSet)
        ensures
            lane_in(r, lane),
            forall|other: Lane| other != lane ==> lane_in(r, other) == lane_in(self, other),
    {
        match lane {
            Lane::Top => LaneSet { top: true, ..self },
            Lane::Jungle => LaneSet { jungle: true, ..self },
            Lane::Mid => LaneSet { mid: true, ..self },
            Lane::Bottom => LaneSet { bottom: true, ..self },
            Lane::Support => LaneSet { support: true, ..self },
        }
    }
}

} // verus!
