//! Data carried into and out of the enumerator: candidate lists per player
//! and the (champion, lane) picks of a finished assignment.

use vstd::prelude::*;
use crate::lanes::{Lane, LaneSet, lane_in};

verus! {

/// One champion a player is willing to play, with the lanes it may take.
#[derive(Clone, Debug, PartialEq, Eq)]
pub struct Candidate {
    /// Champion identifier; equality is by value.
    pub champ: String,
    /// Lanes the player is willing to play this champion in.
    pub lanes: LaneSet,
}

/// All champions one player is willing to play, in the player's own order.
///
/// A well-formed candidate set names each champion at most once.
#[derive(Clone, Debug, PartialEq, Eq)]
pub struct PlayerCandidateSet {
    pub champs: Vec<Candidate>,
}

/// One player's slot of a finished assignment: a champion in a lane.
#[derive(Clone, Debug, PartialEq, Eq)]
pub struct Pick {
    pub champ: String,
    pub lane: Lane,
}

/// The input was malformed: the roster was empty, or one player's candidate
/// set named the same champion twice.
#[derive(Clone, Copy, Debug, PartialEq, Eq, Structural)]
pub struct InvalidInput;

/// Mathematical value of one candidate: the champion's characters and lanes.
pub open spec fn cand_view(c: Candidate) -> (Seq<char>, LaneSet) {
    (c.champ@, c.lanes)
}

/// Mathematical value of a player's candidate list.
pub open spec fn player_view(p: PlayerCandidateSet) -> Seq<(Seq<char>, LaneSet)> {
    p.champs@.map_values(|c: Candidate| cand_view(c))
}

/// Mathematical value of a whole roster.
pub open spec fn roster_view(players: Seq<PlayerCandidateSet>) -> Seq<Seq<(Seq<char>, LaneSet)>> {
    players.map_values(|p: PlayerCandidateSet| player_view(p))
}

/// Mathematical value of one pick: the champion's characters and the lane.
pub open spec fn pick_view(p: Pick) -> (Seq<char>, Lane) {
    (p.champ@, p.lane)
}

/// Mathematical value of a sequence of picks.
pub open spec fn picks_view(s: Seq<Pick>) -> Seq<(Seq<char>, Lane)> {
    s.map_values(|p: Pick| pick_view(p))
}

/// Mathematical value of a list of assignments.
pub open spec fn rows_view(s: Seq<Vec<Pick>>) -> Seq<Seq<(Seq<char>, Lane)>> {
    s.map_values(|v: Vec<Pick>| picks_view(v@))
}

/// No champion occurs twice in one player's candidate list.
pub open spec fn no_dup_champs(entries: Seq<(Seq<char>, LaneSet)>) -> bool {
    forall|k1: int, k2: int|
        0 <= k1 < k2 < entries.len() ==> entries[k1].0 != entries[k2].0
}

/// A roster the enumerator accepts: at least one player, and each player's
/// candidate list names each champion at most once.
pub open spec fn roster_ok(players: Seq<PlayerCandidateSet>) -> bool {
    &&& players.len() >= 1
    &&& forall|i: int|
        0 <= i < players.len() ==> no_dup_champs(player_view(#[trigger] players[i]))
}

/// Player `i` of the roster may play choice `c`: some candidate entry names
/// the champion and allows the lane.
pub open spec fn choice_allowed(
    entries: Seq<(Seq<char>, LaneSet)>,
    c: (Seq<char>, Lane),
) -> bool {
    exists|k: int|
        0 <= k < entries.len() && (#[trigger] entries[k]).0 == c.0 && lane_in(entries[k].1, c.1)
}

/// A complete, collision-free assignment for the given roster: one pick per
/// player, champions pairwise distinct, lanes pairwise distinct, and each
/// player's pick drawn from that player's own candidates.
pub open spec fn assignment_valid(
    roster: Seq<Seq<(Seq<char>, LaneSet)>>,
    a: Seq<(Seq<char>, Lane)>,
) -> bool {
    &&& a.len() == roster.len()
    &&& forall|i: int, j: int| 0 <= i < j < a.len() ==> a[i].0 != a[j].0 && a[i].1 != a[j].1
    &&& forall|i: int| 0 <= i < a.len() ==> choice_allowed(roster[i], #[trigger] a[i])
}

impl Candidate {
    /// A candidate from a champion name and its lane set.
    pub fn new(champ: String, lanes: LaneSet) -> (r: Candidate)
        ensures
            cand_view(r) == (champ@, lanes),
    {
        Candidate { champ, lanes }
    }
}

impl PlayerCandidateSet {
    /// A player with no candidates yet.
    pub fn new() -> (r: PlayerCandidateSet)
        ensures
            player_view(r) == Seq::<(Seq<char>, LaneSet)>::empty(),
    {
        let r = PlayerCandidateSet { champs: Vec::new() };
        proof {
            assert(player_view(r) =~= Seq::<(Seq<char>, LaneSet)>::empty());
        }
        r
    }

    /// Appends one candidate to the player's list.
    pub fn push(&mut self, c: Candidate)
        ensures
            player_view(*final(self)) == player_view(*old(self)).push(cand_view(c)),
    {
        self.champs.push(c);
        proof {
            assert(player_view(*self) =~= player_view(*old(self)).push(cand_view(c)));
        }
    }
}

impl Pick {
    /// A pick from a champion name and a lane.
    pub fn new(champ: String, lane: Lane) -> (r: Pick)
        ensures
            pick_view(r) == (champ@, lane),
    {
        Pick { champ, lane }
    }

    /// A copy whose mathematical value equals this pick's.
    pub fn duplicate(&self) -> (r: Pick)
        ensures
            pick_view(r) == pick_view(*self),
    {
        Pick { champ: self.champ.clone(), lane: self.lane }
    }
}

} // verus!
