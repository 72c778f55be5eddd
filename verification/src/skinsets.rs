//! The skinset index and the overlap resolver: which cosmetic skinsets are
//! common to every champion of an assignment, minus an exclusion set.

use vstd::prelude::*;
use crate::roster::{InvalidInput, Pick, picks_view};

verus! {

/// One champion's row of the index: the skinsets it belongs to.
#[derive(Clone, Debug, PartialEq, Eq)]
pub struct IndexEntry {
    pub champ: String,
    pub skinsets: Vec<String>,
}

/// An immutable mapping from champion to the set of skinsets it belongs to.
///
/// Built once from reference data and then only read. A champion absent from
/// the index simply has no skinsets; a query for it degrades to the empty
/// set and never fails.
#[derive(Clone, Debug, PartialEq, Eq)]
pub struct SkinsetIndex {
    pub entries: Vec<IndexEntry>,
}

/// Mathematical value of a list of skinset names.
pub open spec fn strs_view(s: Seq<String>) -> Seq<Seq<char>> {
    s.map_values(|x: String| x@)
}

/// Mathematical value of the index: a champion-keyed association list.
pub open spec fn index_view(idx: SkinsetIndex) -> Seq<(Seq<char>, Seq<Seq<char>>)> {
    idx.entries@.map_values(|e: IndexEntry| (e.champ@, strs_view(e.skinsets@)))
}

/// No element of `s` occurs twice.
pub open spec fn distinct_strs(s: Seq<Seq<char>>) -> bool {
    forall|k1: int, k2: int| 0 <= k1 < k2 < s.len() ==> s[k1] != s[k2]
}

/// A well-formed index: champion keys pairwise distinct, and each champion's
/// skinset list free of repeats, so that it denotes a set.
pub open spec fn index_wf(iv: Seq<(Seq<char>, Seq<Seq<char>>)>) -> bool {
    &&& forall|i: int, j: int| 0 <= i < j < iv.len() ==> (#[trigger] iv[i]).0 != (#[trigger] iv[j]).0
    &&& forall|i: int| 0 <= i < iv.len() ==> distinct_strs((#[trigger] iv[i]).1)
}

/// The skinsets of one champion: the first matching row, or the empty list
/// for a champion the index does not know.
pub open spec fn champ_sets(iv: Seq<(Seq<char>, Seq<Seq<char>>)>, champ: Seq<char>) -> Seq<
    Seq<char>,
>
    decreases iv.len(),
{
    if iv.len() == 0 {
        Seq::empty()
    } else if iv[0].0 == champ {
        iv[0].1
    } else {
        champ_sets(iv.drop_first(), champ)
    }
}

/// Skinset `s` belongs to every champion of the assignment.
pub open spec fn in_all(
    iv: Seq<(Seq<char>, Seq<Seq<char>>)>,
    a: Seq<(Seq<char>, crate::lanes::Lane)>,
    s: Seq<char>,
) -> bool {
    forall|i: int| 0 <= i < a.len() ==> champ_sets(iv, (#[trigger] a[i]).0).contains(s)
}

/// The members of `base` shared by every champion of the assignment, in the
/// order of `base`.
pub open spec fn sel_shared(
    base: Seq<Seq<char>>,
    iv: Seq<(Seq<char>, Seq<Seq<char>>)>,
    a: Seq<(Seq<char>, crate::lanes::Lane)>,
) -> Seq<Seq<char>>
    decreases base.len(),
{
    if base.len() == 0 {
        Seq::empty()
    } else {
        sel_shared(base.drop_last(), iv, a) + (if in_all(iv, a, base.last()) {
            seq![base.last()]
        } else {
            Seq::empty()
        })
    }
}

/// The skinsets common to every champion of the assignment: the first
/// champion's list filtered down to the members every champion shares. An
/// empty assignment shares nothing.
pub open spec fn shared_sets(
    iv: Seq<(Seq<char>, Seq<Seq<char>>)>,
    a: Seq<(Seq<char>, crate::lanes::Lane)>,
) -> Seq<Seq<char>> {
    if a.len() == 0 {
        Seq::empty()
    } else {
        sel_shared(champ_sets(iv, a[0].0), iv, a)
    }
}

/// `sets` with every member of `excl` removed, order kept.
pub open spec fn minus_excluded(sets: Seq<Seq<char>>, excl: Seq<Seq<char>>) -> Seq<Seq<char>>
    decreases sets.len(),
{
    if sets.len() == 0 {
        Seq::empty()
    } else {
        minus_excluded(sets.drop_last(), excl) + (if excl.contains(sets.last()) {
            Seq::empty()
        } else {
            seq![sets.last()]
        })
    }
}

/// The overlap of an assignment: the skinsets shared by all of its champions
/// that the caller has not excluded.
pub open spec fn overlap_view(
    iv: Seq<(Seq<char>, Seq<Seq<char>>)>,
    a: Seq<(Seq<char>, crate::lanes::Lane)>,
    excl: Seq<Seq<char>>,
) -> Seq<Seq<char>> {
    minus_excluded(shared_sets(iv, a), excl)
}

/// Whether the list holds this name.
#[verifier::loop_isolation(false)]
fn contains_str(v: &Vec<String>, s: &String) -> (b: bool)
    ensures
        b == strs_view(v@).contains(s@),
{
    let mut k: usize = 0;
    while k < v.len()
        invariant
            k <= v.len(),
            forall|m: int| 0 <= m < k ==> strs_view(v@)[m] != s@,
        decreases v.len() - k,
    {
        if v[k] == *s {
            proof {
                assert(strs_view(v@)[k as int] == s@);
            }
            return true;
        }
        k += 1;
    }
    proof {
        assert(!strs_view(v@).contains(s@));
    }
    false
}

impl SkinsetIndex {
    /// An index that knows no champion yet.
    pub fn new() -> (r: SkinsetIndex)
        ensures
            index_view(r) == Seq::<(Seq<char>, Seq<Seq<char>>)>::empty(),
            index_wf(index_view(r)),
    {
        let r = SkinsetIndex { entries: Vec::new() };
        proof {
            assert(index_view(r) =~= Seq::<(Seq<char>, Seq<Seq<char>>)>::empty());
        }
        r
    }

    /// Whether some row already names this champion.
    #[verifier::loop_isolation(false)]
    fn has_champ(&self, champ: &String) -> (b: bool)
        ensures
            b == exists|i: int|
                0 <= i < index_view(*self).len() && (#[trigger] index_view(*self)[i]).0 == champ@,
    {
        let ghost iv = index_view(*self);
        let mut k: usize = 0;
        while k < self.entries.len()
            invariant
                k <= self.entries.len(),
                forall|m: int| 0 <= m < k ==> (#[trigger] iv[m]).0 != champ@,
            decreases self.entries.len() - k,
        {
            if self.entries[k].champ == *champ {
                proof {
                    assert(iv[k as int].0 == champ@);
                }
                return true;
            }
            k += 1;
        }
        false
    }

    /// Adds one champion with its skinsets.
    ///
    /// Rejected with [`InvalidInput`] exactly when the champion is already in
    /// the index or the skinset list repeats a name; on rejection the index
    /// is unchanged.
    #[verifier::loop_isolation(false)]
    pub fn add_champion(&mut self, champ: String, skinsets: Vec<String>) -> (r: Result<
        (),
        InvalidInput,
    >)
        requires
            index_wf(index_view(*old(self))),
        ensures
            index_wf(index_view(*final(self))),
            r is Ok <==> !(exists|i: int|
                0 <= i < index_view(*old(self)).len() && (#[trigger] index_view(
                    *old(self),
                )[i]).0 == champ@) && distinct_strs(strs_view(skinsets@)),
            r is Ok ==> index_view(*final(self)) == index_view(*old(self)).push(
                (champ@, strs_view(skinsets@)),
            ),
            r is Err ==> *final(self) == *old(self),
    {
        if self.has_champ(&champ) {
            return Err(InvalidInput);
        }
        let n = skinsets.len();
        let ghost sv = strs_view(skinsets@);
        let mut a: usize = 0;
        while a < n
            invariant
                a <= n,
                forall|x: int, y: int|
                    0 <= x < y < n && x < a ==> (#[trigger] sv[x]) != (#[trigger] sv[y]),
            decreases n - a,
        {
            let mut b: usize = a + 1;
            while b < n
                invariant
                    a < b <= n,
                    forall|y: int| a < y < b ==> sv[a as int] != (#[trigger] sv[y]),
                decreases n - b,
            {
                if skinsets[a] == skinsets[b] {
                    proof {
                        assert(sv[a as int] == sv[b as int]);
                    }
                    return Err(InvalidInput);
                }
                b += 1;
            }
            a += 1;
        }
        let ghost old_iv = index_view(*self);
        self.entries.push(IndexEntry { champ, skinsets });
        proof {
            assert(index_view(*self) =~= old_iv.push(
                (index_view(*self).last().0, index_view(*self).last().1),
            ));
            assert(index_view(*self) == old_iv.push((champ@, sv)));
        }
        Ok(())
    }

    /// Position of the first row for this champion, if the index knows it.
    #[verifier::loop_isolation(false)]
    fn find_champ(&self, champ: &String) -> (r: Option<usize>)
        ensures
            r matches Some(k) ==> k < index_view(*self).len() && index_view(*self)[k as int].0
                == champ@ && champ_sets(index_view(*self), champ@) == index_view(
                *self,
            )[k as int].1,
            r is None ==> champ_sets(index_view(*self), champ@) == Seq::<Seq<char>>::empty(),
    {
        let ghost iv = index_view(*self);
        let mut k: usize = 0;
        while k < self.entries.len()
            invariant
                k <= self.entries.len(),
                forall|m: int| 0 <= m < k ==> (#[trigger] iv[m]).0 != champ@,
            decreases self.entries.len() - k,
        {
            if self.entries[k].champ == *champ {
                proof {
                    assert(iv[k as int].0 == champ@);
                    lemma_champ_sets_at(iv, champ@, k as int);
                }
                return Some(k);
            }
            k += 1;
        }
        proof {
            lemma_champ_sets_missing(iv, champ@);
        }
        None
    }

    /// Whether this champion's skinset set holds `s`.
    fn champ_has_skinset(&self, champ: &String, s: &String) -> (b: bool)
        ensures
            b == champ_sets(index_view(*self), champ@).contains(s@),
    {
        match self.find_champ(champ) {
            Some(k) => contains_str(&self.entries[k].skinsets, s),
            None => false,
        }
    }

    /// The skinsets common to every champion of the assignment, in the order
    /// of the first champion's row of the index. An assignment with no
    /// players shares nothing; so does one whose champion the index does not
    /// know.
    #[verifier::loop_isolation(false)]
    pub fn get_overlapping_skinsets(&self, assignment: &Vec<Pick>) -> (r: Vec<String>)
        ensures
            strs_view(r@) == shared_sets(index_view(*self), picks_view(assignment@)),
    {
        let ghost iv = index_view(*self);
        let ghost av = picks_view(assignment@);
        let mut r: Vec<String> = Vec::new();
        if assignment.len() == 0 {
            proof {
                assert(strs_view(r@) =~= shared_sets(iv, av));
            }
            return r;
        }
        let k0 = match self.find_champ(&assignment[0].champ) {
            Some(k) => k,
            None => {
                proof {
                    assert(av[0].0 == assignment@[0].champ@);
                    assert(strs_view(r@) =~= sel_shared(champ_sets(iv, av[0].0), iv, av));
                }
                return r;
            },
        };
        proof {
            assert(av[0].0 == assignment@[0].champ@);
        }
        let ghost base = champ_sets(iv, av[0].0);
        let mut m: usize = 0;
        proof {
            assert(base.take(0) =~= Seq::<Seq<char>>::empty());
            assert(strs_view(r@) =~= sel_shared(base.take(0), iv, av));
        }
        while m < self.entries[k0].skinsets.len()
            invariant
                m <= self.entries@[k0 as int].skinsets@.len(),
                k0 < self.entries.len(),
                base == strs_view(self.entries@[k0 as int].skinsets@),
                strs_view(r@) == sel_shared(base.take(m as int), iv, av),
            decreases self.entries@[k0 as int].skinsets@.len() - m,
        {
            let s = &self.entries[k0].skinsets[m];
            let ghost svm = s@;
            let mut all: bool = true;
            let mut i: usize = 0;
            while i < assignment.len()
                invariant
                    i <= assignment.len(),
                    all == forall|p: int| 0 <= p < i ==> champ_sets(iv, (#[trigger] av[p]).0).contains(svm),
                decreases assignment.len() - i,
            {
                if !self.champ_has_skinset(&assignment[i].champ, s) {
                    proof {
                        assert(av[i as int].0 == assignment@[i as int].champ@);
                        assert(!champ_sets(iv, av[i as int].0).contains(svm));
                    }
                    all = false;
                }
                proof {
                    assert(av[i as int].0 == assignment@[i as int].champ@);
                }
                i += 1;
            }
            let ghost r_prev = r@;
            if all {
                r.push(s.clone());
            }
            proof {
                assert(base.take(m as int + 1).drop_last() =~= base.take(m as int));
                assert(base[m as int] == svm);
                assert(sel_shared(base.take(m as int + 1), iv, av) == sel_shared(
                    base.take(m as int),
                    iv,
                    av,
                ) + (if in_all(iv, av, svm) {
                    seq![svm]
                } else {
                    Seq::empty()
                }));
                if all {
                    assert(in_all(iv, av, svm));
                    assert(strs_view(r@) =~= strs_view(r_prev).push(svm));
                    assert(strs_view(r@) =~= sel_shared(base.take(m as int + 1), iv, av));
                } else {
                    assert(!in_all(iv, av, svm));
                    assert(strs_view(r@) =~= sel_shared(base.take(m as int + 1), iv, av));
                }
            }
            m += 1;
        }
        proof {
            assert(base.take(base.len() as int) =~= base);
        }
        r
    }

    /// The overlap of an assignment after the caller's exclusions: the
    /// skinsets shared by all of its champions that `excluded` does not name.
    #[verifier::loop_isolation(false)]
    pub fn overlap(&self, assignment: &Vec<Pick>, excluded: &Vec<String>) -> (r: Vec<String>)
        ensures
            strs_view(r@) == overlap_view(
                index_view(*self),
                picks_view(assignment@),
                strs_view(excluded@),
            ),
    {
        let ghost iv = index_view(*self);
        let ghost av = picks_view(assignment@);
        let ghost ev = strs_view(excluded@);
        let shared = self.get_overlapping_skinsets(assignment);
        let ghost sv = strs_view(shared@);
        let mut r: Vec<String> = Vec::new();
        proof {
            assert(sv.take(0) =~= Seq::<Seq<char>>::empty());
            assert(strs_view(r@) =~= minus_excluded(sv.take(0), ev));
        }
        let mut m: usize = 0;
        while m < shared.len()
            invariant
                m <= shared.len(),
                strs_view(r@) == minus_excluded(sv.take(m as int), ev),
            decreases shared.len() - m,
        {
            let ghost r_prev = r@;
            let excl = contains_str(excluded, &shared[m]);
            if !excl {
                r.push(shared[m].clone());
            }
            proof {
                assert(sv.take(m as int + 1).drop_last() =~= sv.take(m as int));
                assert(sv[m as int] == shared@[m as int]@);
                assert(minus_excluded(sv.take(m as int + 1), ev) == minus_excluded(
                    sv.take(m as int),
                    ev,
                ) + (if ev.contains(sv[m as int]) {
                    Seq::empty()
                } else {
                    seq![sv[m as int]]
                }));
                if excl {
                    assert(strs_view(r@) =~= minus_excluded(sv.take(m as int + 1), ev));
                } else {
                    assert(strs_view(r@) =~= strs_view(r_prev).push(sv[m as int]));
                    assert(strs_view(r@) =~= minus_excluded(sv.take(m as int + 1), ev));
                }
            }
            m += 1;
        }
        proof {
            assert(sv.take(shared@.len() as int) =~= sv);
        }
        r
    }
}

/// First-match lookup resolves to row `k` when the rows before it miss.
proof fn lemma_champ_sets_at(iv: Seq<(Seq<char>, Seq<Seq<char>>)>, champ: Seq<char>, k: int)
    requires
        0 <= k < iv.len(),
        iv[k].0 == champ,
        forall|m: int| 0 <= m < k ==> (#[trigger] iv[m]).0 != champ,
    ensures
        champ_sets(iv, champ) == iv[k].1,
    decreases k,
{
    if k > 0 {
        lemma_champ_sets_at(iv.drop_first(), champ, k - 1);
    }
}

/// Filtering by exclusion keeps exactly the non-excluded members.
proof fn lemma_minus_excluded_membership(sets: Seq<Seq<char>>, excl: Seq<Seq<char>>, s: Seq<char>)
    ensures
        minus_excluded(sets, excl).contains(s) <==> sets.contains(s) && !excl.contains(s),
    decreases sets.len(),
{
    if sets.len() > 0 {
        let head = sets.drop_last();
        let last = sets.last();
        let tail_part = if excl.contains(last) {
            Seq::<Seq<char>>::empty()
        } else {
            seq![last]
        };
        lemma_minus_excluded_membership(head, excl, s);
        crate::seq_facts::lemma_add_contains(minus_excluded(head, excl), tail_part, s);
        if sets.contains(s) && !excl.contains(s) {
            let i = choose|i: int| 0 <= i < sets.len() && sets[i] == s;
            if i < sets.len() - 1 {
                assert(head[i] == s);
                assert(head.contains(s));
            } else {
                assert(tail_part[0] == s);
                assert(tail_part.contains(s));
            }
        }
        if minus_excluded(sets, excl).contains(s) {
            if minus_excluded(head, excl).contains(s) {
                let i = choose|i: int| 0 <= i < head.len() && head[i] == s;
                assert(sets[i] == s);
            } else {
                let i = choose|i: int| 0 <= i < tail_part.len() && tail_part[i] == s;
                assert(sets[sets.len() - 1] == s);
            }
        }
    }
}

/// The shared filter keeps exactly the members of the base list that every
/// champion of the assignment holds.
proof fn lemma_sel_shared_membership(
    base: Seq<Seq<char>>,
    iv: Seq<(Seq<char>, Seq<Seq<char>>)>,
    a: Seq<(Seq<char>, crate::lanes::Lane)>,
    s: Seq<char>,
)
    ensures
        sel_shared(base, iv, a).contains(s) <==> base.contains(s) && in_all(iv, a, s),
    decreases base.len(),
{
    if base.len() > 0 {
        let head = base.drop_last();
        let last = base.last();
        let tail_part = if in_all(iv, a, last) {
            seq![last]
        } else {
            Seq::<Seq<char>>::empty()
        };
        lemma_sel_shared_membership(head, iv, a, s);
        crate::seq_facts::lemma_add_contains(sel_shared(head, iv, a), tail_part, s);
        if base.contains(s) && in_all(iv, a, s) {
            let i = choose|i: int| 0 <= i < base.len() && base[i] == s;
            if i < base.len() - 1 {
                assert(head[i] == s);
                assert(head.contains(s));
            } else {
                assert(tail_part[0] == s);
                assert(tail_part.contains(s));
            }
        }
        if sel_shared(base, iv, a).contains(s) {
            if sel_shared(head, iv, a).contains(s) {
                let i = choose|i: int| 0 <= i < head.len() && head[i] == s;
                assert(base[i] == s);
            } else {
                let i = choose|i: int| 0 <= i < tail_part.len() && tail_part[i] == s;
                assert(base[base.len() - 1] == s);
            }
        }
    }
}

/// A skinset is shared by an assignment exactly when the assignment has at
/// least one player and every player's champion holds that skinset.
pub proof fn lemma_shared_sets_membership(
    iv: Seq<(Seq<char>, Seq<Seq<char>>)>,
    a: Seq<(Seq<char>, crate::lanes::Lane)>,
    s: Seq<char>,
)
    ensures
        shared_sets(iv, a).contains(s) <==> a.len() > 0 && in_all(iv, a, s),
{
    if a.len() > 0 {
        lemma_sel_shared_membership(champ_sets(iv, a[0].0), iv, a, s);
        if in_all(iv, a, s) {
            assert(champ_sets(iv, a[0].0).contains(s));
        }
    }
}

/// A skinset is in the overlap exactly when the assignment has at least one
/// player, every player's champion holds it, and it is not excluded.
pub proof fn lemma_overlap_membership(
    iv: Seq<(Seq<char>, Seq<Seq<char>>)>,
    a: Seq<(Seq<char>, crate::lanes::Lane)>,
    excl: Seq<Seq<char>>,
    s: Seq<char>,
)
    ensures
        overlap_view(iv, a, excl).contains(s) <==> a.len() > 0 && in_all(iv, a, s)
            && !excl.contains(s),
{
    lemma_minus_excluded_membership(shared_sets(iv, a), excl, s);
    lemma_shared_sets_membership(iv, a, s);
}

/// Growing the exclusion set can only shrink the overlap: everything in the
/// overlap under the larger exclusion set is in it under the smaller one.
pub proof fn lemma_overlap_monotonic_exclusion(
    iv: Seq<(Seq<char>, Seq<Seq<char>>)>,
    a: Seq<(Seq<char>, crate::lanes::Lane)>,
    excl1: Seq<Seq<char>>,
    excl2: Seq<Seq<char>>,
)
    requires
        forall|s: Seq<char>| #[trigger] excl1.contains(s) ==> excl2.contains(s),
    ensures
        forall|s: Seq<char>|
            #[trigger] overlap_view(iv, a, excl2).contains(s) ==> overlap_view(
                iv,
                a,
                excl1,
            ).contains(s),
{
    assert forall|s: Seq<char>|
        #[trigger] overlap_view(iv, a, excl2).contains(s) implies overlap_view(
        iv,
        a,
        excl1,
    ).contains(s) by {
        lemma_overlap_membership(iv, a, excl2, s);
        lemma_overlap_membership(iv, a, excl1, s);
    }
}

/// Under a well-formed index every champion's resolved skinset list is free
/// of repeats.
proof fn lemma_champ_sets_distinct(iv: Seq<(Seq<char>, Seq<Seq<char>>)>, champ: Seq<char>)
    requires
        index_wf(iv),
    ensures
        distinct_strs(champ_sets(iv, champ)),
    decreases iv.len(),
{
    if iv.len() > 0 && iv[0].0 != champ {
        let tail = iv.drop_first();
        assert(index_wf(tail)) by {
            assert forall|i: int, j: int| 0 <= i < j < tail.len() implies (#[trigger] tail[i]).0
                != (#[trigger] tail[j]).0 by {
                assert(tail[i] == iv[i + 1] && tail[j] == iv[j + 1]);
            }
            assert forall|i: int| 0 <= i < tail.len() implies distinct_strs(
                (#[trigger] tail[i]).1,
            ) by {
                assert(tail[i] == iv[i + 1]);
            }
        }
        lemma_champ_sets_distinct(tail, champ);
    }
}

/// Filtering a repeat-free list by the shared test keeps it repeat-free.
proof fn lemma_sel_shared_distinct(
    base: Seq<Seq<char>>,
    iv: Seq<(Seq<char>, Seq<Seq<char>>)>,
    a: Seq<(Seq<char>, crate::lanes::Lane)>,
)
    requires
        distinct_strs(base),
    ensures
        distinct_strs(sel_shared(base, iv, a)),
    decreases base.len(),
{
    if base.len() > 0 {
        let head = base.drop_last();
        let last = base.last();
        assert(distinct_strs(head)) by {
            assert forall|k1: int, k2: int| 0 <= k1 < k2 < head.len() implies head[k1]
                != head[k2] by {
                assert(base[k1] == head[k1] && base[k2] == head[k2]);
            }
        }
        lemma_sel_shared_distinct(head, iv, a);
        let tail_part = if in_all(iv, a, last) {
            seq![last]
        } else {
            Seq::<Seq<char>>::empty()
        };
        assert forall|k1: int, k2: int|
            0 <= k1 < k2 < sel_shared(base, iv, a).len() implies sel_shared(base, iv, a)[k1]
            != sel_shared(base, iv, a)[k2] by {
            let whole = sel_shared(head, iv, a) + tail_part;
            if k2 >= sel_shared(head, iv, a).len() {
                lemma_sel_shared_membership(head, iv, a, whole[k1]);
                assert(sel_shared(head, iv, a).contains(whole[k1]));
                if whole[k1] == last {
                    let i = choose|i: int| 0 <= i < head.len() && head[i] == last;
                    assert(base[i] == base[base.len() - 1]);
                }
            }
        }
    }
}

/// Removing the excluded members of a repeat-free list keeps it repeat-free.
proof fn lemma_minus_excluded_distinct(sets: Seq<Seq<char>>, excl: Seq<Seq<char>>)
    requires
        distinct_strs(sets),
    ensures
        distinct_strs(minus_excluded(sets, excl)),
    decreases sets.len(),
{
    if sets.len() > 0 {
        let head = sets.drop_last();
        let last = sets.last();
        assert(distinct_strs(head)) by {
            assert forall|k1: int, k2: int| 0 <= k1 < k2 < head.len() implies head[k1]
                != head[k2] by {
                assert(sets[k1] == head[k1] && sets[k2] == head[k2]);
            }
        }
        lemma_minus_excluded_distinct(head, excl);
        let tail_part = if excl.contains(last) {
            Seq::<Seq<char>>::empty()
        } else {
            seq![last]
        };
        assert forall|k1: int, k2: int|
            0 <= k1 < k2 < minus_excluded(sets, excl).len() implies minus_excluded(
            sets,
            excl,
        )[k1] != minus_excluded(sets, excl)[k2] by {
            let whole = minus_excluded(head, excl) + tail_part;
            if k2 >= minus_excluded(head, excl).len() {
                lemma_minus_excluded_membership(head, excl, whole[k1]);
                assert(head.contains(whole[k1]));
                if whole[k1] == last {
                    let i = choose|i: int| 0 <= i < head.len() && head[i] == last;
                    assert(sets[i] == sets[sets.len() - 1]);
                }
            }
        }
    }
}

/// Under a well-formed index the overlap names no skinset twice: it denotes
/// a set.
pub proof fn lemma_overlap_distinct(
    iv: Seq<(Seq<char>, Seq<Seq<char>>)>,
    a: Seq<(Seq<char>, crate::lanes::Lane)>,
    excl: Seq<Seq<char>>,
)
    requires
        index_wf(iv),
    ensures
        distinct_strs(overlap_view(iv, a, excl)),
{
    if a.len() > 0 {
        lemma_champ_sets_distinct(iv, a[0].0);
        lemma_sel_shared_distinct(champ_sets(iv, a[0].0), iv, a);
    }
    lemma_minus_excluded_distinct(shared_sets(iv, a), excl);
}

/// A champion no row names resolves to the empty set of skinsets.
proof fn lemma_champ_sets_missing(iv: Seq<(Seq<char>, Seq<Seq<char>>)>, champ: Seq<char>)
    requires
        forall|m: int| 0 <= m < iv.len() ==> (#[trigger] iv[m]).0 != champ,
    ensures
        champ_sets(iv, champ) == Seq::<Seq<char>>::empty(),
    decreases iv.len(),
{
    if iv.len() > 0 {
        lemma_champ_sets_missing(iv.drop_first(), champ);
    }
}

} // verus!
