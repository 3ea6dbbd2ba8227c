//! Choosing the item to branch on: the minimum remaining values heuristic
//! with a preference and a tiebreak.

use std::marker::PhantomData;

use vstd::prelude::*;

use crate::links::LinksV;
use crate::{Dance, Data, Link, Rng};

verus! {

/// A strategy that picks the next item to branch on.
pub trait Choose<D: Dance> {
    /// An item to branch on, when some primary item is still uncovered: an
    /// item of the active list of primary items, or, when that list holds
    /// none, the head's right link.
    fn choose_next(&mut self, dance: &D) -> (r: Link)
        requires
            dance.dance_view().wf(),
        ensures
            r == dance.dance_view().net.right[0] || active_items(dance.dance_view()).contains(r as int),
    ;
}

/// Which items are preferred for branching; the others count their
/// column length twice.
pub trait Preference {
    /// Whether item `i` is preferred.
    spec fn prefers(&self, i: Link) -> bool;

    /// Whether item `i` is preferred.
    fn prefer(&self, i: Link) -> (r: bool)
        ensures
            r == self.prefers(i),
    ;
}

/// How to choose between two items of the same score.
pub trait Tiebreak {
    /// The problems it reads.
    type D: Dance;

    /// Ties always keep the item found first.
    spec fn keeps_first(&self) -> bool;

    /// A new minimum was found.
    fn reset(&mut self)
        ensures
            old(self).keeps_first() ==> final(self).keeps_first(),
    ;

    /// Whether item `i1` replaces item `i0`, which has the same score.
    fn replace(&mut self, i0: Link, i1: Link, dance: &Self::D) -> (r: bool)
        requires
            dance.dance_view().wf(),
            i0 < dance.dance_view().net.ni(),
            i1 < dance.dance_view().net.ni(),
        ensures
            old(self).keeps_first() ==> !r && final(self).keeps_first(),
    ;
}

/// The items met walking right from item node `p`, at most `fuel` of them,
/// until a node that is no item (node `0` ends the list of primary items).
pub open spec fn walk(v: LinksV, p: int, fuel: nat) -> Seq<int>
    decreases fuel,
{
    if fuel == 0 || !(1 <= p <= v.net.len) {
        Seq::empty()
    } else {
        seq![p] + walk(v, v.net.right[p] as int, (fuel - 1) as nat)
    }
}

/// The items of the active list of primary items, as the chooser walks
/// them: at most one step per item node.
pub open spec fn active_items(v: LinksV) -> Seq<int> {
    walk(v, v.net.right[0] as int, v.net.ni() as nat)
}

/// The score of item `i`: its branching degree, plus its column length
/// when it is not preferred.
pub open spec fn score(v: LinksV, preferred: bool, i: int) -> Data {
    if preferred {
        v.degree(i) as Data
    } else {
        (v.degree(i) as Data).wrapping_add(v.net.hdr[i])
    }
}

/// An item that is not preferred is scored by its branching degree plus
/// its column length (the number of options left in its column), a
/// preferred one by its branching degree alone.
pub proof fn law_score_penalty(v: LinksV, i: int)
    ensures
        score(v, true, i) == v.degree(i) as Data,
        score(v, false, i) == score(v, true, i).wrapping_add(v.net.hdr[i]),
{
}

/// The minimum remaining values chooser.
pub struct MRVChooser<P, T> {
    pub pref: P,
    pub tbreak: T,
}

impl<P: Preference, T: Tiebreak> MRVChooser<P, T> {
    /// An active primary item of least score; among items of equal score
    /// the tiebreak decides. With no active item, the head's right link.
    pub fn choose_item(&mut self, dance: &T::D) -> (r: Link)
        requires
            dance.dance_view().wf(),
        ensures
            ({
                let v = dance.dance_view();
                let w = active_items(v);
                &&& w.len() == 0 ==> r == v.net.right[0]
                &&& w.len() > 0 ==> w.contains(r as int) && forall|k: int|
                    0 <= k < w.len() ==> score(v, old(self).pref.prefers(r), r as int) <= #[trigger] score(
                        v,
                        old(self).pref.prefers(w[k] as Link),
                        w[k],
                    )
                &&& w.len() > 0 && old(self).tbreak.keeps_first() ==> exists|j: int|
                    0 <= j < w.len() && w[j] == r && forall|k: int|
                        0 <= k < j ==> score(v, old(self).pref.prefers(r), r as int) < #[trigger] score(
                            v,
                            old(self).pref.prefers(w[k] as Link),
                            w[k],
                        )
            }),
            final(self).pref == old(self).pref,
    {
        let ghost v = dance.dance_view();
        let links = dance.links();
        proof {
            crate::links::lemma_end_spacers(v.net);
            assert(v.net.left[0] < v.net.ni());
        }
        let ni = links.len + 2;
        let mut min = Data::MAX;
        let mut p = links.right[0];
        let mut i = p;
        let mut fuel = ni;
        let ghost mut walked: Seq<int> = Seq::empty();
        while fuel > 0 && 1 <= p && p <= links.len
            invariant
                v == dance.dance_view(),
                links@ == v,
                v.wf(),
                ni == v.net.ni(),
                v.net.ni() <= v.net.n(),
                fuel <= ni,
                p < ni,
                active_items(v) == walked + walk(v, p as int, fuel as nat),
                walked.len() == 0 ==> i == p && i == v.net.right[0] && min == Data::MAX,
                walked.len() > 0 ==> walked.contains(i as int) && 1 <= i <= v.net.len,
                walked.len() > 0 ==> min == score(v, self.pref.prefers(i), i as int),
                forall|k: int|
                    0 <= k < walked.len() ==> min <= #[trigger] score(
                        v,
                        self.pref.prefers(walked[k] as Link),
                        walked[k],
                    ),
                forall|k: int| 0 <= k < walked.len() ==> 1 <= #[trigger] walked[k] <= v.net.len,
                i < ni,
                self.pref == old(self).pref,
                old(self).tbreak.keeps_first() ==> self.tbreak.keeps_first(),
                walked.len() > 0 && old(self).tbreak.keeps_first() ==> exists|j: int|
                    0 <= j < walked.len() && walked[j] == i && forall|k: int|
                        0 <= k < j ==> min < #[trigger] score(
                            v,
                            self.pref.prefers(walked[k] as Link),
                            walked[k],
                        ),
            decreases fuel,
        {
            let d = dance.branch_degree(p);
            let preferred = self.pref.prefer(p);
            let curr = if !preferred {
                d.wrapping_add(links.hdr[p])
            } else {
                d
            };
            let ghost before = walked;
            let ghost old_min = min;
            proof {
                walked = walked.push(p as int);
                assert(walk(v, p as int, fuel as nat) == seq![p as int] + walk(
                    v,
                    v.net.right[p as int] as int,
                    (fuel - 1) as nat,
                ));
                assert(before + walk(v, p as int, fuel as nat) =~= walked + walk(
                    v,
                    v.net.right[p as int] as int,
                    (fuel - 1) as nat,
                ));
            }
            if curr < min {
                self.tbreak.reset();
                min = curr;
                i = p;
            } else if curr == min {
                if self.tbreak.replace(i, p, dance) {
                    min = curr;
                    i = p;
                }
            }
            proof {
                assert(walked.contains(i as int)) by {
                    if i == p {
                        assert(walked[walked.len() - 1] == p);
                    } else {
                        assert(before.contains(i as int));
                        let k = choose|k: int| 0 <= k < before.len() && before[k] == i;
                        assert(walked[k] == i);
                    }
                }
                assert forall|k: int| 0 <= k < walked.len() implies min <= #[trigger] score(
                    v,
                    self.pref.prefers(walked[k] as Link),
                    walked[k],
                ) by {
                    if k < before.len() {
                        assert(walked[k] == before[k]);
                    }
                }
                assert forall|k: int| 0 <= k < walked.len() implies 1 <= #[trigger] walked[k]
                    <= v.net.len by {
                    if k < before.len() {
                        assert(walked[k] == before[k]);
                    }
                }
                if old(self).tbreak.keeps_first() {
                    if i == p && (before.len() == 0 || curr < old_min) {
                        let j = walked.len() - 1;
                        assert(walked[j] == i);
                        assert forall|k: int| 0 <= k < j implies min < #[trigger] score(
                            v,
                            self.pref.prefers(walked[k] as Link),
                            walked[k],
                        ) by {
                            assert(walked[k] == before[k]);
                        }
                    } else {
                        assert(min == old_min);
                        let j = choose|j: int|
                            0 <= j < before.len() && before[j] == i && forall|k: int|
                                0 <= k < j ==> min < #[trigger] score(
                                    v,
                                    self.pref.prefers(before[k] as Link),
                                    before[k],
                                );
                        assert(walked[j] == i);
                        assert forall|k: int| 0 <= k < j implies min < #[trigger] score(
                            v,
                            self.pref.prefers(walked[k] as Link),
                            walked[k],
                        ) by {
                            assert(walked[k] == before[k]);
                        }
                    }
                }
            }
            proof {
                assert(v.net.left[p as int] < ni);
            }
            p = links.right[p];
            fuel -= 1;
        }
        proof {
            if fuel == 0 {
                assert(walk(v, p as int, 0) =~= Seq::<int>::empty());
            } else {
                assert(walk(v, p as int, fuel as nat) =~= Seq::<int>::empty());
            }
            assert(active_items(v) =~= walked);
        }
        i
    }
}

impl<D: Dance, P: Preference, T: Tiebreak<D = D>> Choose<D> for MRVChooser<P, T> {
    fn choose_next(&mut self, dance: &D) -> (r: Link) {
        self.choose_item(dance)
    }
}

/// Every item is preferred.
pub struct PreferAny;

impl Preference for PreferAny {
    open spec fn prefers(&self, i: Link) -> bool {
        true
    }

    fn prefer(&self, i: Link) -> (r: bool) {
        true
    }
}

/// The items below a bound are preferred.
pub struct PreferFirstN(pub Link);

impl Preference for PreferFirstN {
    open spec fn prefers(&self, i: Link) -> bool {
        i < self.0
    }

    fn prefer(&self, i: Link) -> (r: bool) {
        i < self.0
    }
}

/// Ties keep the first item found.
pub struct NoTiebreak<D>(pub PhantomData<D>);

impl<D: Dance> Tiebreak for NoTiebreak<D> {
    type D = D;

    open spec fn keeps_first(&self) -> bool {
        true
    }

    fn reset(&mut self) {
    }

    fn replace(&mut self, i0: Link, i1: Link, dance: &D) -> (r: bool)
        ensures
            !r,
    {
        false
    }
}

/// Ties are broken at random, each of `c` tied items kept with chance
/// `1/c`.
pub struct RndTiebreak<D> {
    pub rng: Rng,
    pub c: u32,
    pub phantom: PhantomData<D>,
}

impl<D: Dance> Tiebreak for RndTiebreak<D> {
    type D = D;

    open spec fn keeps_first(&self) -> bool {
        false
    }

    fn reset(&mut self)
        ensures
            final(self).c == 1,
            final(self).rng == old(self).rng,
    {
        self.c = 1;
    }

    fn replace(&mut self, i0: Link, i1: Link, dance: &D) -> (r: bool)
        ensures
            old(self).c < 0x8000_0000 ==> final(self).c == old(self).c + 1 && r == (
            final(self).rng@ % final(self).c == 0) && final(self).rng@ == crate::draw_below(
                old(self).rng@,
                crate::threshold(final(self).c),
                crate::draw_fuel(),
            ),
            old(self).c >= 0x8000_0000 ==> !r && *final(self) == *old(self),
    {
        if self.c >= 0x8000_0000 {
            return false;
        }
        self.c += 1;
        self.rng.uniform(self.c) == 0
    }
}

/// Ties go to the item with less slack, then to the longer column.
pub struct KnuthTiebreak<D>(pub PhantomData<D>);

impl<D: Dance> Tiebreak for KnuthTiebreak<D> {
    type D = D;

    open spec fn keeps_first(&self) -> bool {
        false
    }

    fn reset(&mut self) {
    }

    fn replace(&mut self, i0: Link, i1: Link, dance: &D) -> (r: bool)
        ensures
            ({
                let v = dance.dance_view().net;
                r == (v.slack[i1 as int] < v.slack[i0 as int] || (v.slack[i1 as int]
                    == v.slack[i0 as int] && v.hdr[i1 as int] > v.hdr[i0 as int]))
            }),
    {
        let links = dance.links();
        proof {
            crate::links::lemma_end_spacers(dance.dance_view().net);
        }
        links.slack[i1] < links.slack[i0] || (links.slack[i1] == links.slack[i0] && links.hdr[i1]
            > links.hdr[i0])
    }
}

/// The minimum remaining values chooser with preference `pref` and
/// tiebreak `tbreak`.
pub fn mrv_chooser<P: Preference, T: Tiebreak>(pref: P, tbreak: T) -> (r: MRVChooser<P, T>)
    ensures
        r.pref == pref,
        r.tbreak == tbreak,
{
    MRVChooser { pref, tbreak }
}

/// Prefer every item.
pub fn prefer_any() -> (r: PreferAny)
    ensures
        r == PreferAny,
        forall|i: Link| r.prefers(i),
{
    PreferAny
}

/// Prefer the items below `n`.
pub fn prefer_first_n(n: Link) -> (r: PreferFirstN)
    ensures
        r.0 == n,
{
    PreferFirstN(n)
}

/// Keep the first of tied items.
pub fn no_tiebreak<D: Dance>() -> (r: NoTiebreak<D>)
    ensures
        r == NoTiebreak::<D>(PhantomData),
        r.keeps_first(),
{
    NoTiebreak(PhantomData)
}

/// Break ties at random, with a generator seeded with `seed`.
pub fn rnd_tiebreak<D: Dance>(seed: u32) -> (r: RndTiebreak<D>)
    requires
        seed != 0,
    ensures
        r.rng@ == seed,
        r.c == 1,
{
    RndTiebreak { rng: Rng::new(seed), c: 1, phantom: PhantomData }
}

/// Break ties by slack, then by column length.
pub fn knuth_tiebreak<D: Dance>() -> (r: KnuthTiebreak<D>)
    ensures
        r == KnuthTiebreak::<D>(PhantomData),
{
    KnuthTiebreak(PhantomData)
}

} // verus!
