//! The full pipeline: enumerate every assignment, resolve each overlap, and
//! keep the assignments that still share a skinset after exclusion.

use vstd::prelude::*;
use crate::lanes::Lane;
use crate::roster::{InvalidInput, Pick, PlayerCandidateSet, picks_view, roster_ok, roster_view, rows_view};
use crate::enumerate::{resolve_all_champ_combinations, solve_rows};
use crate::skinsets::{SkinsetIndex, index_view, overlap_view, strs_view};

verus! {

/// One surviving result: an assignment and its non-empty set of shared,
/// non-excluded skinsets.
#[derive(Clone, Debug, PartialEq, Eq)]
pub struct ResultEntry {
    pub assignment: Vec<Pick>,
    pub skinsets: Vec<String>,
}

/// Mathematical value of one result entry.
pub open spec fn entry_view(e: ResultEntry) -> (Seq<(Seq<char>, Lane)>, Seq<Seq<char>>) {
    (picks_view(e.assignment@), strs_view(e.skinsets@))
}

/// Mathematical value of the pipeline's output.
pub open spec fn entries_view(s: Seq<ResultEntry>) -> Seq<
    (Seq<(Seq<char>, Lane)>, Seq<Seq<char>>),
> {
    s.map_values(|e: ResultEntry| entry_view(e))
}

/// The enumerated rows paired with their overlap, keeping exactly the rows
/// whose overlap is non-empty, in enumeration order.
pub open spec fn keep_playable(
    rows: Seq<Seq<(Seq<char>, Lane)>>,
    iv: Seq<(Seq<char>, Seq<Seq<char>>)>,
    excl: Seq<Seq<char>>,
) -> Seq<(Seq<(Seq<char>, Lane)>, Seq<Seq<char>>)>
    decreases rows.len(),
{
    if rows.len() == 0 {
        Seq::empty()
    } else {
        keep_playable(rows.drop_last(), iv, excl) + (if overlap_view(
            iv,
            rows.last(),
            excl,
        ).len() > 0 {
            seq![(rows.last(), overlap_view(iv, rows.last(), excl))]
        } else {
            Seq::empty()
        })
    }
}

/// A copy of an assignment with the same mathematical value.
#[verifier::loop_isolation(false)]
fn duplicate_picks(row: &Vec<Pick>) -> (r: Vec<Pick>)
    ensures
        picks_view(r@) == picks_view(row@),
{
    let mut r: Vec<Pick> = Vec::new();
    proof {
        assert(picks_view(r@) =~= picks_view(row@.take(0)));
    }
    let mut k: usize = 0;
    while k < row.len()
        invariant
            k <= row.len(),
            picks_view(r@) == picks_view(row@.take(k as int)),
        decreases row.len() - k,
    {
        let x = row[k].duplicate();
        let ghost xv = crate::roster::pick_view(x);
        let ghost r_prev = r@;
        r.push(x);
        proof {
            assert(picks_view(r@) =~= picks_view(r_prev).push(xv));
            assert(picks_view(row@.take(k as int + 1)) =~= picks_view(
                row@.take(k as int),
            ).push(xv));
        }
        k += 1;
    }
    proof {
        assert(row@.take(row@.len() as int) =~= row@);
    }
    r
}

/// Runs the whole pipeline: every collision-free assignment of the roster,
/// each with the skinsets all of its champions share once `excluded` is
/// removed, keeping only assignments that still share at least one skinset.
///
/// Fails with [`InvalidInput`] exactly when the roster is empty or some
/// player's candidate list names a champion twice, and never returns a
/// partial result. The output is a pure function of the three inputs, so
/// repeated calls with equal inputs return equal output in equal order.
#[verifier::loop_isolation(false)]
pub fn resolve_playable_comps(
    players: &Vec<PlayerCandidateSet>,
    index: &SkinsetIndex,
    excluded: &Vec<String>,
) -> (r: Result<Vec<ResultEntry>, InvalidInput>)
    ensures
        r is Ok <==> roster_ok(players@),
        r matches Ok(out) ==> entries_view(out@) == keep_playable(
            solve_rows(roster_view(players@)),
            index_view(*index),
            strs_view(excluded@),
        ),
{
    let ghost iv = index_view(*index);
    let ghost ev = strs_view(excluded@);
    let rows = match resolve_all_champ_combinations(players) {
        Ok(rows) => rows,
        Err(e) => {
            return Err(e);
        },
    };
    let ghost rv = rows_view(rows@);
    let mut out: Vec<ResultEntry> = Vec::new();
    proof {
        assert(rv.take(0) =~= Seq::<Seq<(Seq<char>, Lane)>>::empty());
        assert(entries_view(out@) =~= keep_playable(rv.take(0), iv, ev));
    }
    let mut m: usize = 0;
    while m < rows.len()
        invariant
            m <= rows.len(),
            entries_view(out@) == keep_playable(rv.take(m as int), iv, ev),
        decreases rows.len() - m,
    {
        let ghost out_prev = out@;
        let sets = index.overlap(&rows[m], excluded);
        proof {
            assert(rv[m as int] == picks_view(rows@[m as int]@));
        }
        if sets.len() > 0 {
            let e = ResultEntry { assignment: duplicate_picks(&rows[m]), skinsets: sets };
            let ghost ew = entry_view(e);
            out.push(e);
            proof {
                assert(entries_view(out@) =~= entries_view(out_prev).push(ew));
            }
        }
        proof {
            assert(rv.take(m as int + 1).drop_last() =~= rv.take(m as int));
            assert(keep_playable(rv.take(m as int + 1), iv, ev) == keep_playable(
                rv.take(m as int),
                iv,
                ev,
            ) + (if overlap_view(iv, rv[m as int], ev).len() > 0 {
                seq![(rv[m as int], overlap_view(iv, rv[m as int], ev))]
            } else {
                Seq::empty()
            }));
            if overlap_view(iv, rv[m as int], ev).len() > 0 {
                assert(entries_view(out@) =~= keep_playable(rv.take(m as int + 1), iv, ev));
            } else {
                assert(entries_view(out@) =~= keep_playable(rv.take(m as int + 1), iv, ev));
            }
        }
        m += 1;
    }
    proof {
        assert(rv.take(rows@.len() as int) =~= rv);
    }
    Ok(out)
}

/// The pipeline's output is pinned by its inputs: any two outputs that meet
/// its contract on the same roster, index and exclusion set are equal, order
/// included. Repeated calls with identical inputs therefore produce
/// identical output sequences.
pub proof fn lemma_pipeline_deterministic(
    roster: Seq<Seq<(Seq<char>, crate::lanes::LaneSet)>>,
    iv: Seq<(Seq<char>, Seq<Seq<char>>)>,
    excl: Seq<Seq<char>>,
    out1: Seq<(Seq<(Seq<char>, Lane)>, Seq<Seq<char>>)>,
    out2: Seq<(Seq<(Seq<char>, Lane)>, Seq<Seq<char>>)>,
)
    requires
        out1 == keep_playable(solve_rows(roster), iv, excl),
        out2 == keep_playable(solve_rows(roster), iv, excl),
    ensures
        out1 == out2,
{
}

} // verus!
