//! The assignment enumerator: every way to give each player one
//! (champion, lane) pair with no champion and no lane used twice.
//!
//! The executable search is recursive and suffix-first: the solutions for the
//! players after the current one are computed first, and the current player's
//! choices are prepended to every compatible suffix solution. The spec
//! functions below define the exact output sequence, order included, and the
//! executable functions are proved equal to them.

use vstd::prelude::*;
use crate::lanes::{Lane, LaneSet, lane_in};
use crate::roster::{
    InvalidInput, Pick, PlayerCandidateSet, cand_view, choice_allowed, no_dup_champs, pick_view,
    picks_view, player_view, roster_ok, roster_view, rows_view,
};
use crate::seq_facts::{distinct_seq, lemma_add_contains, lemma_add_distinct};

verus! {

/// The (at most one) choice an entry contributes for one lane: present
/// exactly when the entry's lane set holds that lane.
pub open spec fn lane_slot(champ: Seq<char>, ls: LaneSet, lane: Lane) -> Seq<(Seq<char>, Lane)> {
    if lane_in(ls, lane) {
        seq![(champ, lane)]
    } else {
        Seq::empty()
    }
}

/// All (champion, lane) choices of one candidate entry, lanes in declaration
/// order.
pub open spec fn entry_choices(champ: Seq<char>, ls: LaneSet) -> Seq<(Seq<char>, Lane)> {
    lane_slot(champ, ls, Lane::Top) + lane_slot(champ, ls, Lane::Jungle) + lane_slot(
        champ,
        ls,
        Lane::Mid,
    ) + lane_slot(champ, ls, Lane::Bottom) + lane_slot(champ, ls, Lane::Support)
}

/// All (champion, lane) choices of one player, entries in input order, lanes
/// in declaration order within an entry.
pub open spec fn player_choices(entries: Seq<(Seq<char>, LaneSet)>) -> Seq<(Seq<char>, Lane)>
    decreases entries.len(),
{
    if entries.len() == 0 {
        Seq::empty()
    } else {
        player_choices(entries.drop_last()) + entry_choices(
            entries.last().0,
            entries.last().1,
        )
    }
}

/// The choice `c` collides with nothing in `row`: its champion and its lane
/// are both unused there.
pub open spec fn compat(c: (Seq<char>, Lane), row: Seq<(Seq<char>, Lane)>) -> bool {
    forall|k: int|
        0 <= k < row.len() ==> (#[trigger] row[k]).0 != c.0 && row[k].1 != c.1
}

/// One choice prepended to every compatible row, rows kept in their order.
pub open spec fn combine_one(
    c: (Seq<char>, Lane),
    rows: Seq<Seq<(Seq<char>, Lane)>>,
) -> Seq<Seq<(Seq<char>, Lane)>>
    decreases rows.len(),
{
    if rows.len() == 0 {
        Seq::empty()
    } else {
        combine_one(c, rows.drop_last()) + (if compat(c, rows.last()) {
            seq![seq![c] + rows.last()]
        } else {
            Seq::empty()
        })
    }
}

/// Every choice prepended to every compatible row: choices outermost, so the
/// output follows the order of `cs` first and of `rows` second.
pub open spec fn combine_all(
    cs: Seq<(Seq<char>, Lane)>,
    rows: Seq<Seq<(Seq<char>, Lane)>>,
) -> Seq<Seq<(Seq<char>, Lane)>>
    decreases cs.len(),
{
    if cs.len() == 0 {
        Seq::empty()
    } else {
        combine_all(cs.drop_last(), rows) + combine_one(cs.last(), rows)
    }
}

/// Each choice as a one-entry row.
pub open spec fn singleton_rows(cs: Seq<(Seq<char>, Lane)>) -> Seq<Seq<(Seq<char>, Lane)>> {
    cs.map_values(|c: (Seq<char>, Lane)| seq![c])
}

/// The full enumeration for a roster: for the last player every choice as a
/// one-entry row, and for each earlier player every choice prepended to every
/// compatible solution of the players after it.
pub open spec fn solve_rows(
    roster: Seq<Seq<(Seq<char>, LaneSet)>>,
) -> Seq<Seq<(Seq<char>, Lane)>>
    decreases roster.len(),
{
    if roster.len() == 0 {
        Seq::empty()
    } else if roster.len() == 1 {
        singleton_rows(player_choices(roster[0]))
    } else {
        combine_all(player_choices(roster[0]), solve_rows(roster.drop_first()))
    }
}

/// All choices of one candidate entry, lanes in declaration order.
fn entry_choices_exec(champ: &String, ls: LaneSet) -> (r: Vec<Pick>)
    ensures
        picks_view(r@) == entry_choices(champ@, ls),
{
    let mut r: Vec<Pick> = Vec::new();
    if ls.top {
        r.push(Pick { champ: champ.clone(), lane: Lane::Top });
    }
    proof {
        assert(picks_view(r@) =~= lane_slot(champ@, ls, Lane::Top));
    }
    if ls.jungle {
        r.push(Pick { champ: champ.clone(), lane: Lane::Jungle });
    }
    proof {
        assert(picks_view(r@) =~= lane_slot(champ@, ls, Lane::Top) + lane_slot(
            champ@,
            ls,
            Lane::Jungle,
        ));
    }
    if ls.mid {
        r.push(Pick { champ: champ.clone(), lane: Lane::Mid });
    }
    proof {
        assert(picks_view(r@) =~= lane_slot(champ@, ls, Lane::Top) + lane_slot(
            champ@,
            ls,
            Lane::Jungle,
        ) + lane_slot(champ@, ls, Lane::Mid));
    }
    if ls.bottom {
        r.push(Pick { champ: champ.clone(), lane: Lane::Bottom });
    }
    proof {
        assert(picks_view(r@) =~= lane_slot(champ@, ls, Lane::Top) + lane_slot(
            champ@,
            ls,
            Lane::Jungle,
        ) + lane_slot(champ@, ls, Lane::Mid) + lane_slot(champ@, ls, Lane::Bottom));
    }
    if ls.support {
        r.push(Pick { champ: champ.clone(), lane: Lane::Support });
    }
    proof {
        assert(picks_view(r@) =~= entry_choices(champ@, ls));
    }
    r
}

/// All choices of one player, in input order.
#[verifier::loop_isolation(false)]
fn player_choices_exec(p: &PlayerCandidateSet) -> (r: Vec<Pick>)
    ensures
        picks_view(r@) == player_choices(player_view(*p)),
{
    let ghost pv = player_view(*p);
    let mut r: Vec<Pick> = Vec::new();
    proof {
        assert(pv.take(0) =~= Seq::<(Seq<char>, LaneSet)>::empty());
        assert(picks_view(r@) =~= player_choices(pv.take(0)));
    }
    let mut i: usize = 0;
    while i < p.champs.len()
        invariant
            i <= p.champs.len(),
            picks_view(r@) == player_choices(pv.take(i as int)),
        decreases p.champs.len() - i,
    {
        let e = entry_choices_exec(&p.champs[i].champ, p.champs[i].lanes);
        let ghost r_old = r@;
        let mut k: usize = 0;
        while k < e.len()
            invariant
                k <= e.len(),
                picks_view(r@) == picks_view(r_old) + picks_view(e@.take(k as int)),
            decreases e.len() - k,
        {
            let x = e[k].duplicate();
            let ghost xv = pick_view(x);
            let ghost r_prev = r@;
            r.push(x);
            proof {
                assert(picks_view(r@) =~= picks_view(r_prev).push(xv));
                assert(picks_view(e@.take(k as int + 1)) =~= picks_view(
                    e@.take(k as int),
                ).push(xv));
                assert(picks_view(r_prev).push(xv) =~= picks_view(r_old) + picks_view(
                    e@.take(k as int + 1),
                ));
            }
            k += 1;
        }
        proof {
            assert(e@.take(e@.len() as int) =~= e@);
            assert(pv.take(i as int + 1).drop_last() =~= pv.take(i as int));
            assert(pv.take(i as int + 1).last() == cand_view(p.champs@[i as int]));
            assert(picks_view(r@) =~= player_choices(pv.take(i as int + 1)));
        }
        i += 1;
    }
    proof {
        assert(pv.take(p.champs@.len() as int) =~= pv);
    }
    r
}

/// Whether this pick's champion and lane are both unused in `row`.
#[verifier::loop_isolation(false)]
fn compat_exec(c: &Pick, row: &Vec<Pick>) -> (b: bool)
    ensures
        b == compat(pick_view(*c), picks_view(row@)),
{
    let mut k: usize = 0;
    while k < row.len()
        invariant
            k <= row.len(),
            forall|m: int|
                0 <= m < k ==> (#[trigger] picks_view(row@)[m]).0 != pick_view(*c).0
                    && picks_view(row@)[m].1 != pick_view(*c).1,
        decreases row.len() - k,
    {
        if row[k].champ == c.champ {
            proof {
                assert(picks_view(row@)[k as int].0 == pick_view(*c).0);
            }
            return false;
        }
        if row[k].lane == c.lane {
            proof {
                assert(picks_view(row@)[k as int].1 == pick_view(*c).1);
            }
            return false;
        }
        k += 1;
    }
    true
}

/// A new row: this pick first, then all of `row`.
#[verifier::loop_isolation(false)]
fn prepend_pick(c: &Pick, row: &Vec<Pick>) -> (r: Vec<Pick>)
    ensures
        picks_view(r@) == seq![pick_view(*c)] + picks_view(row@),
{
    let mut r: Vec<Pick> = Vec::new();
    r.push(c.duplicate());
    proof {
        assert(picks_view(r@) =~= seq![pick_view(*c)] + picks_view(row@.take(0)));
    }
    let mut k: usize = 0;
    while k < row.len()
        invariant
            k <= row.len(),
            picks_view(r@) == seq![pick_view(*c)] + picks_view(row@.take(k as int)),
        decreases row.len() - k,
    {
        let x = row[k].duplicate();
        let ghost xv = pick_view(x);
        let ghost r_prev = r@;
        r.push(x);
        proof {
            assert(picks_view(r@) =~= picks_view(r_prev).push(xv));
            assert(picks_view(row@.take(k as int + 1)) =~= picks_view(
                row@.take(k as int),
            ).push(xv));
            assert(picks_view(r_prev).push(xv) =~= seq![pick_view(*c)] + picks_view(
                row@.take(k as int + 1),
            ));
        }
        k += 1;
    }
    proof {
        assert(row@.take(row@.len() as int) =~= row@);
    }
    r
}

/// The enumeration for the roster suffix that starts at player `i`.
#[verifier::loop_isolation(false)]
fn solve_from(players: &Vec<PlayerCandidateSet>, i: usize) -> (r: Vec<Vec<Pick>>)
    requires
        i < players@.len(),
    ensures
        rows_view(r@) == solve_rows(roster_view(players@).skip(i as int)),
    decreases players@.len() - i,
{
    let ghost rv = roster_view(players@).skip(i as int);
    proof {
        assert(rv[0] == player_view(players@[i as int]));
    }
    let n = players.len();
    let choices = player_choices_exec(&players[i]);
    let ghost cv = picks_view(choices@);
    let mut result: Vec<Vec<Pick>> = Vec::new();
    if i + 1 == n {
        let mut j: usize = 0;
        proof {
            assert(rows_view(result@) =~= singleton_rows(cv.take(0)));
        }
        while j < choices.len()
            invariant
                j <= choices.len(),
                rows_view(result@) == singleton_rows(cv.take(j as int)),
            decreases choices.len() - j,
        {
            let mut row: Vec<Pick> = Vec::new();
            row.push(choices[j].duplicate());
            let ghost rowv = picks_view(row@);
            result.push(row);
            proof {
                assert(rowv =~= seq![cv[j as int]]);
                assert(singleton_rows(cv.take(j as int + 1)) =~= singleton_rows(
                    cv.take(j as int),
                ).push(rowv));
                assert(rows_view(result@) =~= singleton_rows(cv.take(j as int)).push(rowv));
            }
            j += 1;
        }
        proof {
            assert(cv.take(cv.len() as int) =~= cv);
            assert(rv.len() == 1);
            assert(rows_view(result@) == solve_rows(rv));
        }
    } else {
        let others = solve_from(players, i + 1);
        let ghost ov = rows_view(others@);
        proof {
            assert(rv.drop_first() =~= roster_view(players@).skip(i as int + 1));
            assert(cv.take(0) =~= Seq::<(Seq<char>, Lane)>::empty());
            assert(rows_view(result@) =~= combine_all(cv.take(0), ov));
        }
        let mut ci: usize = 0;
        while ci < choices.len()
            invariant
                ci <= choices.len(),
                rows_view(result@) == combine_all(cv.take(ci as int), ov),
            decreases choices.len() - ci,
        {
            let ghost c = cv[ci as int];
            let mut ti: usize = 0;
            proof {
                assert(ov.take(0) =~= Seq::<Seq<(Seq<char>, Lane)>>::empty());
                assert(rows_view(result@) =~= combine_all(cv.take(ci as int), ov) + combine_one(
                    c,
                    ov.take(0),
                ));
            }
            while ti < others.len()
                invariant
                    ti <= others.len(),
                    rows_view(result@) == combine_all(cv.take(ci as int), ov) + combine_one(
                        c,
                        ov.take(ti as int),
                    ),
                decreases others.len() - ti,
            {
                let ghost before = rows_view(result@);
                if compat_exec(&choices[ci], &others[ti]) {
                    let row = prepend_pick(&choices[ci], &others[ti]);
                    let ghost rowv = picks_view(row@);
                    result.push(row);
                    proof {
                        assert(rowv =~= seq![c] + ov[ti as int]);
                        assert(rows_view(result@) =~= before.push(rowv));
                    }
                }
                proof {
                    assert(ov.take(ti as int + 1).drop_last() =~= ov.take(ti as int));
                    assert(combine_one(c, ov.take(ti as int + 1)) == combine_one(
                        c,
                        ov.take(ti as int),
                    ) + (if compat(c, ov[ti as int]) {
                        seq![seq![c] + ov[ti as int]]
                    } else {
                        Seq::empty()
                    }));
                    if compat(c, ov[ti as int]) {
                        assert(rows_view(result@) =~= combine_all(cv.take(ci as int), ov)
                            + combine_one(c, ov.take(ti as int + 1)));
                    } else {
                        assert(rows_view(result@) =~= combine_all(cv.take(ci as int), ov)
                            + combine_one(c, ov.take(ti as int + 1)));
                    }
                }
                ti += 1;
            }
            proof {
                assert(ov.take(others.len() as int) =~= ov);
                assert(cv.take(ci as int + 1).drop_last() =~= cv.take(ci as int));
                assert(combine_all(cv.take(ci as int + 1), ov) == combine_all(
                    cv.take(ci as int),
                    ov,
                ) + combine_one(c, ov));
            }
            ci += 1;
        }
        proof {
            assert(cv.take(choices.len() as int) =~= cv);
            assert(rv.len() >= 2);
            assert(rows_view(result@) == solve_rows(rv));
        }
    }
    result
}

/// Whether one player's candidate list names some champion twice.
#[verifier::loop_isolation(false)]
fn has_dup_champ(p: &PlayerCandidateSet) -> (b: bool)
    ensures
        b == !no_dup_champs(player_view(*p)),
{
    let ghost pv = player_view(*p);
    let n = p.champs.len();
    let mut a: usize = 0;
    while a < n
        invariant
            a <= n,
            forall|x: int, y: int|
                0 <= x < y < n && x < a ==> (#[trigger] pv[x]).0 != (#[trigger] pv[y]).0,
        decreases n - a,
    {
        let mut b: usize = a + 1;
        while b < n
            invariant
                a < b <= n,
                forall|y: int| a < y < b ==> pv[a as int].0 != (#[trigger] pv[y]).0,
            decreases n - b,
        {
            if p.champs[a].champ == p.champs[b].champ {
                proof {
                    assert(pv[a as int].0 == pv[b as int].0);
                }
                return true;
            }
            b += 1;
        }
        a += 1;
    }
    false
}

/// Every complete, collision-free assignment for the roster, in the order the
/// recursive search emits them: the first player's candidates outermost (in
/// input order, lanes in declaration order), suffix solutions innermost.
///
/// Fails with [`InvalidInput`] exactly when the roster is empty or some
/// player's candidate list names a champion twice. The search is worst-case
/// exponential in the number of players, so callers should bound the roster;
/// a league team has at most five players.
pub fn resolve_all_champ_combinations(players: &Vec<PlayerCandidateSet>) -> (r: Result<
    Vec<Vec<Pick>>,
    InvalidInput,
>)
    ensures
        r is Ok <==> roster_ok(players@),
        r matches Ok(rows) ==> rows_view(rows@) == solve_rows(roster_view(players@)),
{
    if players.len() == 0 {
        return Err(InvalidInput);
    }
    let mut i: usize = 0;
    while i < players.len()
        invariant
            i <= players.len(),
            forall|m: int|
                0 <= m < i ==> no_dup_champs(player_view(#[trigger] players@[m])),
        decreases players.len() - i,
    {
        if has_dup_champ(&players[i]) {
            return Err(InvalidInput);
        }
        i += 1;
    }
    let rows = solve_from(players, 0);
    proof {
        assert(roster_view(players@).skip(0) =~= roster_view(players@));
    }
    Ok(rows)
}

/// A choice is among an entry's choices exactly when it names the entry's
/// champion in one of the entry's lanes.
proof fn lemma_entry_choices_membership(champ: Seq<char>, ls: LaneSet, c: (Seq<char>, Lane))
    ensures
        entry_choices(champ, ls).contains(c) <==> (c.0 == champ && lane_in(ls, c.1)),
{
    let s1 = lane_slot(champ, ls, Lane::Top);
    let s2 = lane_slot(champ, ls, Lane::Jungle);
    let s3 = lane_slot(champ, ls, Lane::Mid);
    let s4 = lane_slot(champ, ls, Lane::Bottom);
    let s5 = lane_slot(champ, ls, Lane::Support);
    lemma_add_contains(s1, s2, c);
    lemma_add_contains(s1 + s2, s3, c);
    lemma_add_contains(s1 + s2 + s3, s4, c);
    lemma_add_contains(s1 + s2 + s3 + s4, s5, c);
    if entry_choices(champ, ls).contains(c) {
        if s1.contains(c) {
            let i = choose|i: int| 0 <= i < s1.len() && s1[i] == c;
            assert(c == (champ, Lane::Top));
        } else if s2.contains(c) {
            let i = choose|i: int| 0 <= i < s2.len() && s2[i] == c;
            assert(c == (champ, Lane::Jungle));
        } else if s3.contains(c) {
            let i = choose|i: int| 0 <= i < s3.len() && s3[i] == c;
            assert(c == (champ, Lane::Mid));
        } else if s4.contains(c) {
            let i = choose|i: int| 0 <= i < s4.len() && s4[i] == c;
            assert(c == (champ, Lane::Bottom));
        } else {
            let i = choose|i: int| 0 <= i < s5.len() && s5[i] == c;
            assert(c == (champ, Lane::Support));
        }
    }
    if c.0 == champ && lane_in(ls, c.1) {
        match c.1 {
            Lane::Top => {
                assert(s1[0] == c);
                assert(s1.contains(c));
            },
            Lane::Jungle => {
                assert(s2[0] == c);
                assert(s2.contains(c));
            },
            Lane::Mid => {
                assert(s3[0] == c);
                assert(s3.contains(c));
            },
            Lane::Bottom => {
                assert(s4[0] == c);
                assert(s4.contains(c));
            },
            Lane::Support => {
                assert(s5[0] == c);
                assert(s5.contains(c));
            },
        }
    }
}

/// A choice is among a player's choices exactly when some candidate entry
/// allows it.
proof fn lemma_player_choices_membership(
    entries: Seq<(Seq<char>, LaneSet)>,
    c: (Seq<char>, Lane),
)
    ensures
        player_choices(entries).contains(c) <==> choice_allowed(entries, c),
    decreases entries.len(),
{
    if entries.len() == 0 {
        assert(!choice_allowed(entries, c));
    } else {
        let head = entries.drop_last();
        let last = entries.last();
        lemma_player_choices_membership(head, c);
        lemma_entry_choices_membership(last.0, last.1, c);
        lemma_add_contains(player_choices(head), entry_choices(last.0, last.1), c);
        if choice_allowed(entries, c) {
            let k = choose|k: int|
                0 <= k < entries.len() && (#[trigger] entries[k]).0 == c.0 && lane_in(
                    entries[k].1,
                    c.1,
                );
            if k < entries.len() - 1 {
                assert(head[k] == entries[k]);
                assert(choice_allowed(head, c));
            } else {
                assert(last == entries[k]);
            }
        }
        if choice_allowed(head, c) {
            let k = choose|k: int|
                0 <= k < head.len() && (#[trigger] head[k]).0 == c.0 && lane_in(head[k].1, c.1);
            assert(entries[k] == head[k]);
            assert(choice_allowed(entries, c));
        }
        if last.0 == c.0 && lane_in(last.1, c.1) {
            assert(entries[entries.len() - 1] == last);
            assert(choice_allowed(entries, c));
        }
    }
}

/// A row comes out of `combine_one` exactly when it is the choice prepended
/// to a compatible input row.
proof fn lemma_combine_one_membership(
    c: (Seq<char>, Lane),
    rows: Seq<Seq<(Seq<char>, Lane)>>,
    x: Seq<(Seq<char>, Lane)>,
)
    ensures
        combine_one(c, rows).contains(x) <==> exists|t: int|
            0 <= t < rows.len() && compat(c, #[trigger] rows[t]) && x == seq![c] + rows[t],
    decreases rows.len(),
{
    if rows.len() > 0 {
        let head = rows.drop_last();
        let last = rows.last();
        let tail_part = if compat(c, last) {
            seq![seq![c] + last]
        } else {
            Seq::<Seq<(Seq<char>, Lane)>>::empty()
        };
        lemma_combine_one_membership(c, head, x);
        lemma_add_contains(combine_one(c, head), tail_part, x);
        if combine_one(c, rows).contains(x) {
            if combine_one(c, head).contains(x) {
                let t = choose|t: int|
                    0 <= t < head.len() && compat(c, #[trigger] head[t]) && x == seq![c] + head[t];
                assert(rows[t] == head[t]);
                assert(compat(c, rows[t]) && x == seq![c] + rows[t]);
            } else {
                let i = choose|i: int| 0 <= i < tail_part.len() && tail_part[i] == x;
                assert(compat(c, rows[rows.len() - 1]) && x == seq![c] + rows[rows.len() - 1]);
            }
        }
        if exists|t: int|
            0 <= t < rows.len() && compat(c, #[trigger] rows[t]) && x == seq![c] + rows[t] {
            let t = choose|t: int|
                0 <= t < rows.len() && compat(c, #[trigger] rows[t]) && x == seq![c] + rows[t];
            if t < rows.len() - 1 {
                assert(head[t] == rows[t]);
                assert(combine_one(c, head).contains(x));
            } else {
                assert(tail_part[0] == x);
                assert(tail_part.contains(x));
            }
        }
    }
}

/// A row comes out of `combine_all` exactly when it is some choice prepended
/// to some compatible input row.
proof fn lemma_combine_all_membership(
    cs: Seq<(Seq<char>, Lane)>,
    rows: Seq<Seq<(Seq<char>, Lane)>>,
    x: Seq<(Seq<char>, Lane)>,
)
    ensures
        combine_all(cs, rows).contains(x) <==> exists|ci: int, ti: int|
            0 <= ci < cs.len() && 0 <= ti < rows.len() && compat(#[trigger] cs[ci], #[trigger] rows[ti])
                && x == seq![cs[ci]] + rows[ti],
    decreases cs.len(),
{
    if cs.len() > 0 {
        let head = cs.drop_last();
        let last = cs.last();
        lemma_combine_all_membership(head, rows, x);
        lemma_combine_one_membership(last, rows, x);
        lemma_add_contains(combine_all(head, rows), combine_one(last, rows), x);
        if combine_all(cs, rows).contains(x) {
            if combine_all(head, rows).contains(x) {
                let (ci, ti) = choose|ci: int, ti: int|
                    0 <= ci < head.len() && 0 <= ti < rows.len() && compat(
                        #[trigger] head[ci],
                        #[trigger] rows[ti],
                    ) && x == seq![head[ci]] + rows[ti];
                assert(cs[ci] == head[ci]);
                assert(compat(cs[ci], rows[ti]) && x == seq![cs[ci]] + rows[ti]);
            } else {
                let t = choose|t: int|
                    0 <= t < rows.len() && compat(last, #[trigger] rows[t]) && x == seq![last]
                        + rows[t];
                assert(cs[cs.len() - 1] == last);
                assert(compat(cs[cs.len() - 1], rows[t]) && x == seq![cs[cs.len() - 1]] + rows[t]);
            }
        }
        if exists|ci: int, ti: int|
            0 <= ci < cs.len() && 0 <= ti < rows.len() && compat(
                #[trigger] cs[ci],
                #[trigger] rows[ti],
            ) && x == seq![cs[ci]] + rows[ti] {
            let (ci, ti) = choose|ci: int, ti: int|
                0 <= ci < cs.len() && 0 <= ti < rows.len() && compat(
                    #[trigger] cs[ci],
                    #[trigger] rows[ti],
                ) && x == seq![cs[ci]] + rows[ti];
            if ci < cs.len() - 1 {
                assert(head[ci] == cs[ci]);
                assert(combine_all(head, rows).contains(x));
            } else {
                assert(cs[ci] == last);
                assert(combine_one(last, rows).contains(x));
            }
        }
    }
}

/// Rank of a lane in declaration order.
spec fn lane_rank(l: Lane) -> int {
    match l {
        Lane::Top => 0,
        Lane::Jungle => 1,
        Lane::Mid => 2,
        Lane::Bottom => 3,
        Lane::Support => 4,
    }
}

/// An entry's choices all name its champion, with strictly increasing lanes,
/// so no choice repeats.
proof fn lemma_entry_choices_distinct(champ: Seq<char>, ls: LaneSet)
    ensures
        distinct_seq(entry_choices(champ, ls)),
        forall|i: int|
            0 <= i < entry_choices(champ, ls).len() ==> (#[trigger] entry_choices(
                champ,
                ls,
            )[i]).0 == champ,
{
    let ec = entry_choices(champ, ls);
    assert forall|i: int| 0 <= i < ec.len() implies (#[trigger] ec[i]).0 == champ by {}
    assert forall|i: int, j: int| 0 <= i < j < ec.len() implies lane_rank(ec[i].1) < lane_rank(
        ec[j].1,
    ) by {}
    assert forall|i: int, j: int| 0 <= i < j < ec.len() implies ec[i] != ec[j] by {
        assert(lane_rank(ec[i].1) < lane_rank(ec[j].1));
    }
}

/// A player whose candidate list repeats no champion contributes pairwise
/// distinct choices.
proof fn lemma_player_choices_distinct(entries: Seq<(Seq<char>, LaneSet)>)
    requires
        no_dup_champs(entries),
    ensures
        distinct_seq(player_choices(entries)),
    decreases entries.len(),
{
    if entries.len() > 0 {
        let head = entries.drop_last();
        let last = entries.last();
        assert(no_dup_champs(head)) by {
            assert forall|k1: int, k2: int| 0 <= k1 < k2 < head.len() implies head[k1].0
                != head[k2].0 by {
                assert(entries[k1] == head[k1] && entries[k2] == head[k2]);
            }
        }
        lemma_player_choices_distinct(head);
        lemma_entry_choices_distinct(last.0, last.1);
        assert forall|x: (Seq<char>, Lane)| #[trigger]
            player_choices(head).contains(x) implies !entry_choices(last.0, last.1).contains(
            x,
        ) by {
            lemma_player_choices_membership(head, x);
            let k = choose|k: int|
                0 <= k < head.len() && (#[trigger] head[k]).0 == x.0 && lane_in(head[k].1, x.1);
            assert(entries[k] == head[k]);
            assert(entries[entries.len() - 1] == last);
            assert(entries[k].0 != last.0);
            lemma_entry_choices_membership(last.0, last.1, x);
        }
        lemma_add_distinct(player_choices(head), entry_choices(last.0, last.1));
    }
}

/// Prepending one choice to pairwise distinct rows keeps the results
/// pairwise distinct.
proof fn lemma_combine_one_distinct(c: (Seq<char>, Lane), rows: Seq<Seq<(Seq<char>, Lane)>>)
    requires
        distinct_seq(rows),
    ensures
        distinct_seq(combine_one(c, rows)),
    decreases rows.len(),
{
    if rows.len() > 0 {
        let head = rows.drop_last();
        let last = rows.last();
        let tail_part = if compat(c, last) {
            seq![seq![c] + last]
        } else {
            Seq::<Seq<(Seq<char>, Lane)>>::empty()
        };
        assert(distinct_seq(head)) by {
            assert forall|k1: int, k2: int| 0 <= k1 < k2 < head.len() implies head[k1]
                != head[k2] by {
                assert(rows[k1] == head[k1] && rows[k2] == head[k2]);
            }
        }
        lemma_combine_one_distinct(c, head);
        assert forall|x: Seq<(Seq<char>, Lane)>| #[trigger]
            combine_one(c, head).contains(x) implies !tail_part.contains(x) by {
            lemma_combine_one_membership(c, head, x);
            let t = choose|t: int|
                0 <= t < head.len() && compat(c, #[trigger] head[t]) && x == seq![c] + head[t];
            if tail_part.contains(x) {
                let i = choose|i: int| 0 <= i < tail_part.len() && tail_part[i] == x;
                assert(x == seq![c] + last);
                assert((seq![c] + head[t]).drop_first() =~= head[t]);
                assert((seq![c] + last).drop_first() =~= last);
                assert(rows[t] == head[t]);
                assert(rows[rows.len() - 1] == last);
                assert(rows[t] == rows[rows.len() - 1]);
            }
        }
        lemma_add_distinct(combine_one(c, head), tail_part);
    }
}

/// With pairwise distinct choices and pairwise distinct rows, every combined
/// result is distinct: results differ in their first slot across choices and
/// in their tail within one choice.
proof fn lemma_combine_all_distinct(
    cs: Seq<(Seq<char>, Lane)>,
    rows: Seq<Seq<(Seq<char>, Lane)>>,
)
    requires
        distinct_seq(cs),
        distinct_seq(rows),
    ensures
        distinct_seq(combine_all(cs, rows)),
    decreases cs.len(),
{
    if cs.len() > 0 {
        let head = cs.drop_last();
        let last = cs.last();
        assert(distinct_seq(head)) by {
            assert forall|k1: int, k2: int| 0 <= k1 < k2 < head.len() implies head[k1]
                != head[k2] by {
                assert(cs[k1] == head[k1] && cs[k2] == head[k2]);
            }
        }
        lemma_combine_all_distinct(head, rows);
        lemma_combine_one_distinct(last, rows);
        assert forall|x: Seq<(Seq<char>, Lane)>| #[trigger]
            combine_all(head, rows).contains(x) implies !combine_one(last, rows).contains(x) by {
            lemma_combine_all_membership(head, rows, x);
            let (ci, ti) = choose|ci: int, ti: int|
                0 <= ci < head.len() && 0 <= ti < rows.len() && compat(
                    #[trigger] head[ci],
                    #[trigger] rows[ti],
                ) && x == seq![head[ci]] + rows[ti];
            if combine_one(last, rows).contains(x) {
                lemma_combine_one_membership(last, rows, x);
                let t = choose|t: int|
                    0 <= t < rows.len() && compat(last, #[trigger] rows[t]) && x == seq![last]
                        + rows[t];
                assert(x[0] == head[ci]);
                assert(x[0] == last);
                assert(cs[ci] == head[ci]);
                assert(cs[cs.len() - 1] == last);
                assert(cs[ci] == cs[cs.len() - 1]);
            }
        }
        lemma_add_distinct(combine_all(head, rows), combine_one(last, rows));
    }
}

/// The enumeration never emits the same assignment twice, provided no
/// player's candidate list repeats a champion. Together with soundness and
/// completeness this pins the output's length to the exact number of
/// collision-free assignments the roster admits.
pub proof fn lemma_enumeration_distinct(roster: Seq<Seq<(Seq<char>, LaneSet)>>)
    requires
        roster.len() >= 1,
        forall|i: int| 0 <= i < roster.len() ==> no_dup_champs(#[trigger] roster[i]),
    ensures
        distinct_seq(solve_rows(roster)),
    decreases roster.len(),
{
    let pc = player_choices(roster[0]);
    lemma_player_choices_distinct(roster[0]);
    if roster.len() == 1 {
        let sr = singleton_rows(pc);
        assert forall|i: int, j: int| 0 <= i < j < sr.len() implies sr[i] != sr[j] by {
            assert(sr[i] == seq![pc[i]] && sr[j] == seq![pc[j]]);
            if sr[i] == sr[j] {
                assert(sr[i][0] == sr[j][0]);
                assert(pc[i] == pc[j]);
            }
        }
    } else {
        let tail = roster.drop_first();
        assert forall|i: int| 0 <= i < tail.len() implies no_dup_champs(#[trigger] tail[i]) by {
            assert(tail[i] == roster[i + 1]);
        }
        lemma_enumeration_distinct(tail);
        lemma_combine_all_distinct(pc, solve_rows(tail));
    }
}

/// Every row the enumeration emits is a complete, collision-free assignment
/// drawn from the players' own candidates.
pub proof fn lemma_enumeration_sound(
    roster: Seq<Seq<(Seq<char>, LaneSet)>>,
    x: Seq<(Seq<char>, Lane)>,
)
    requires
        roster.len() >= 1,
        solve_rows(roster).contains(x),
    ensures
        crate::roster::assignment_valid(roster, x),
    decreases roster.len(),
{
    let pc = player_choices(roster[0]);
    if roster.len() == 1 {
        let i = choose|i: int| 0 <= i < singleton_rows(pc).len() && singleton_rows(pc)[i] == x;
        assert(x == seq![pc[i]]);
        assert(pc.contains(pc[i]));
        lemma_player_choices_membership(roster[0], pc[i]);
        assert(x[0] == pc[i]);
    } else {
        let tail = roster.drop_first();
        let rows = solve_rows(tail);
        lemma_combine_all_membership(pc, rows, x);
        let (ci, ti) = choose|ci: int, ti: int|
            0 <= ci < pc.len() && 0 <= ti < rows.len() && compat(
                #[trigger] pc[ci],
                #[trigger] rows[ti],
            ) && x == seq![pc[ci]] + rows[ti];
        let c = pc[ci];
        let t = rows[ti];
        assert(rows.contains(t));
        lemma_enumeration_sound(tail, t);
        assert(pc.contains(c));
        lemma_player_choices_membership(roster[0], c);
        assert(x.len() == roster.len());
        assert(x[0] == c);
        assert forall|j: int| 1 <= j < x.len() implies x[j] == t[j - 1] by {}
        assert forall|i: int, j: int| 0 <= i < j < x.len() implies x[i].0 != x[j].0 && x[i].1
            != x[j].1 by {
            if i == 0 {
                assert(t[j - 1].0 != c.0 && t[j - 1].1 != c.1);
            } else {
                assert(t[i - 1].0 != t[j - 1].0 && t[i - 1].1 != t[j - 1].1);
            }
        }
        assert forall|i: int| 0 <= i < x.len() implies crate::roster::choice_allowed(
            roster[i],
            x[i],
        ) by {
            if i >= 1 {
                assert(tail[i - 1] == roster[i]);
                assert(crate::roster::choice_allowed(tail[i - 1], t[i - 1]));
            }
        }
    }
}

/// Every complete, collision-free assignment drawn from the players' own
/// candidates is among the rows the enumeration emits: nothing is omitted.
pub proof fn lemma_enumeration_complete(
    roster: Seq<Seq<(Seq<char>, LaneSet)>>,
    a: Seq<(Seq<char>, Lane)>,
)
    requires
        roster.len() >= 1,
        crate::roster::assignment_valid(roster, a),
    ensures
        solve_rows(roster).contains(a),
    decreases roster.len(),
{
    let pc = player_choices(roster[0]);
    lemma_player_choices_membership(roster[0], a[0]);
    assert(crate::roster::choice_allowed(roster[0], a[0]));
    assert(pc.contains(a[0]));
    let ci = choose|i: int| 0 <= i < pc.len() && pc[i] == a[0];
    if roster.len() == 1 {
        assert(singleton_rows(pc)[ci] == seq![pc[ci]]);
        assert(seq![pc[ci]] =~= a);
        assert(singleton_rows(pc).contains(a));
    } else {
        let tail = roster.drop_first();
        let t = a.drop_first();
        assert forall|k: int| 0 <= k < t.len() implies t[k] == a[k + 1] by {}
        assert(crate::roster::assignment_valid(tail, t)) by {
            assert forall|i: int, j: int| 0 <= i < j < t.len() implies t[i].0 != t[j].0 && t[i].1
                != t[j].1 by {
                assert(a[i + 1].0 != a[j + 1].0 && a[i + 1].1 != a[j + 1].1);
            }
            assert forall|i: int| 0 <= i < t.len() implies crate::roster::choice_allowed(
                tail[i],
                t[i],
            ) by {
                assert(tail[i] == roster[i + 1]);
                assert(crate::roster::choice_allowed(roster[i + 1], a[i + 1]));
            }
        }
        lemma_enumeration_complete(tail, t);
        let rows = solve_rows(tail);
        let ti = choose|i: int| 0 <= i < rows.len() && rows[i] == t;
        assert(compat(a[0], t)) by {
            assert forall|k: int| 0 <= k < t.len() implies (#[trigger] t[k]).0 != a[0].0 && t[k].1
                != a[0].1 by {
                assert(a[k + 1].0 != a[0].0 && a[k + 1].1 != a[0].1);
            }
        }
        assert(a =~= seq![pc[ci]] + rows[ti]);
        lemma_combine_all_membership(pc, rows, a);
        assert(combine_all(pc, rows).contains(a));
    }
}

} // verus!
