//! The backtracking search over the dancing links of a problem.

use vstd::prelude::*;

use crate::chooser::{active_items, Choose};
use crate::covering::{column, law_uncover_cover};
use crate::hiding::same_option;
use crate::levels::{consistent, lemma_consistent_cover_ok, lemma_uncover_net, live};
use crate::links::{
    lemma_col_facts, lemma_end_spacers, lemma_frame_cols, lemma_frame_trans, LinksV, Net,
};
use crate::lists::{colors_secondary, lemma_active_items_in, lists_ok};
use crate::steps::{
    in_option, law_level_lists, level_colors, level_log, lemma_commit_option_net, lemma_cover_net, lemma_level_log_frame,
    lemma_level_undo, lemma_same_option_frame,
};
use crate::{Count, Link, Solve};

verus! {

/// The first spacer at or after node `x`, looked for during at most `fuel`
/// steps.
pub open spec fn spacer_from(s: Net, x: int, fuel: nat) -> int
    decreases fuel,
{
    if fuel == 0 || s.hdr[x] < 0 {
        x
    } else {
        spacer_from(s, x + 1, (fuel - 1) as nat)
    }
}

/// The number (from `0`) of the option that holds entry `x`: read from
/// the spacer after it.
pub open spec fn option_index(s: Net, x: int) -> isize {
    (-1isize).wrapping_sub(s.hdr[spacer_from(s, x, s.n() as nat)])
}

/// The options of the entries in `xs`; entries that are item headers
/// (an item left without an option) are left out.
pub open spec fn solution_of(s: Net, xs: Seq<Link>) -> Seq<isize>
    decreases xs.len(),
{
    if xs.len() == 0 {
        Seq::empty()
    } else {
        let rest = solution_of(s, xs.drop_last());
        if xs.last() > s.len {
            rest.push(option_index(s, xs.last() as int))
        } else {
            rest
        }
    }
}

/// The items still to cover at each level of a search from `o` that chose
/// the entries `x`: at first every item, and each level `k` took
/// out what the option of `x[k]` covers.
#[verifier::opaque]
pub open spec fn cover_log(o: Net, acts: Seq<Set<int>>, x: Seq<Link>, l: int) -> bool {
    &&& forall|c: int| 1 <= c <= o.len ==> #[trigger] acts[0].contains(c)
    &&& forall|k: int| 0 <= k < l ==> #[trigger] level_log(o, acts[k], acts[k + 1], x[k] as int)
}

/// What each level of a search did to colors and to the items still to
/// cover, read in the states `tr` of the levels.
#[verifier::opaque]
pub open spec fn trail_colors(tr: Seq<LinksV>, acts: Seq<Set<int>>, x: Seq<Link>, l: int) -> bool {
    forall|k: int|
        0 <= k < l ==> #[trigger] level_colors(tr[k].net, tr[k + 1].net, acts[k], acts[k + 1], x[k] as int)
}

/// The colors log reads no choice beyond its level.
proof fn lemma_trail_colors_x(tr: Seq<LinksV>, acts: Seq<Set<int>>, x: Seq<Link>, x2: Seq<Link>, l: int)
    requires
        trail_colors(tr, acts, x, l),
        forall|k: int| 0 <= k < l ==> x2[k] == x[k],
    ensures
        trail_colors(tr, acts, x2, l),
{
    reveal(trail_colors);
    assert forall|k: int| 0 <= k < l implies #[trigger] level_colors(tr[k].net, tr[k + 1].net, acts[k], acts[k + 1], x2[k] as int) by {
        assert(level_colors(tr[k].net, tr[k + 1].net, acts[k], acts[k + 1], x[k] as int));
    }
}

/// One more level of the colors log.
proof fn lemma_trail_colors_push(tr: Seq<LinksV>, acts: Seq<Set<int>>, x: Seq<Link>, l: int, t2: LinksV, a2: Set<int>)
    requires
        trail_colors(tr, acts, x, l),
        tr.len() == l + 1,
        acts.len() == l + 1,
        0 <= l,
        level_colors(tr[l].net, t2.net, acts[l], a2, x[l] as int),
    ensures
        trail_colors(tr.push(t2), acts.push(a2), x, l + 1),
{
    reveal(trail_colors);
    let tr2 = tr.push(t2);
    let acts2 = acts.push(a2);
    assert forall|k: int| 0 <= k < l + 1 implies #[trigger] level_colors(tr2[k].net, tr2[k + 1].net, acts2[k], acts2[k + 1], x[k] as int) by {
        if k < l {
            assert(level_colors(tr[k].net, tr[k + 1].net, acts[k], acts[k + 1], x[k] as int));
        }
    }
}

/// The last level of the colors log replaced by another choice.
proof fn lemma_trail_colors_replace(
    tr: Seq<LinksV>,
    acts: Seq<Set<int>>,
    x: Seq<Link>,
    l: int,
    t2: LinksV,
    a2: Set<int>,
    y: Link,
)
    requires
        trail_colors(tr, acts, x, l + 1),
        tr.len() == l + 2,
        acts.len() == l + 2,
        0 <= l,
        l < x.len(),
        level_colors(tr[l].net, t2.net, acts[l], a2, y as int),
    ensures
        trail_colors(tr.update(l + 1, t2), acts.update(l + 1, a2), x.update(l, y), l + 1),
{
    reveal(trail_colors);
    let tr2 = tr.update(l + 1, t2);
    let acts2 = acts.update(l + 1, a2);
    let x2 = x.update(l, y);
    assert forall|k: int| 0 <= k < l + 1 implies #[trigger] level_colors(tr2[k].net, tr2[k + 1].net, acts2[k], acts2[k + 1], x2[k] as int) by {
        if k < l {
            assert(level_colors(tr[k].net, tr[k + 1].net, acts[k], acts[k + 1], x[k] as int));
        }
    }
}

/// The colors log without its last level.
proof fn lemma_trail_colors_take(tr: Seq<LinksV>, acts: Seq<Set<int>>, x: Seq<Link>, l: int)
    requires
        trail_colors(tr, acts, x, l + 1),
        tr.len() == l + 2,
        acts.len() == l + 2,
        0 <= l,
    ensures
        trail_colors(tr.take(l + 1), acts.take(l + 1), x, l),
{
    reveal(trail_colors);
    let tr2 = tr.take(l + 1);
    let acts2 = acts.take(l + 1);
    assert forall|k: int| 0 <= k < l implies #[trigger] level_colors(tr2[k].net, tr2[k + 1].net, acts2[k], acts2[k + 1], x[k] as int) by {
        assert(level_colors(tr[k].net, tr[k + 1].net, acts[k], acts[k + 1], x[k] as int));
    }
}

/// Every primary item of `o` has an entry in exactly one of the options
/// of the entries `xs`; in a problem without colors no secondary item has
/// an entry in two of them.
pub open spec fn exact_cover(o: Net, xs: Seq<Link>) -> bool {
    forall|c: int|
        #[trigger] o.is_hdr(c) ==> {
            &&& c <= o.primary ==> exists|k: int| 0 <= k < xs.len() && #[trigger] in_option(o, xs[k] as int, c)
            &&& (c <= o.primary || !o.colored) ==> forall|k1: int, k2: int|
                0 <= k1 < xs.len() && 0 <= k2 < xs.len() && #[trigger] in_option(o, xs[k1] as int, c)
                    && #[trigger] in_option(o, xs[k2] as int, c) ==> k1 == k2
        }
}

/// The log reads no choice beyond its level.
proof fn lemma_cover_log_x(o: Net, acts: Seq<Set<int>>, x: Seq<Link>, x2: Seq<Link>, l: int)
    requires
        cover_log(o, acts, x, l),
        forall|k: int| 0 <= k < l ==> x2[k] == x[k],
    ensures
        cover_log(o, acts, x2, l),
{
    reveal(cover_log);
    assert forall|k: int| 0 <= k < l implies #[trigger] level_log(o, acts[k], acts[k + 1], x2[k] as int) by {
        assert(level_log(o, acts[k], acts[k + 1], x[k] as int));
    }
}

/// One more level of the log.
proof fn lemma_cover_log_push(o: Net, acts: Seq<Set<int>>, x: Seq<Link>, l: int, a2: Set<int>)
    requires
        cover_log(o, acts, x, l),
        acts.len() == l + 1,
        0 <= l,
        level_log(o, acts[l], a2, x[l] as int),
    ensures
        cover_log(o, acts.push(a2), x, l + 1),
{
    reveal(cover_log);
    let acts2 = acts.push(a2);
    assert(acts2[0] == acts[0]);
    assert forall|k: int| 0 <= k < l + 1 implies #[trigger] level_log(o, acts2[k], acts2[k + 1], x[k] as int) by {
        if k < l {
            assert(level_log(o, acts[k], acts[k + 1], x[k] as int));
        }
    }
}

/// The last level of the log replaced by another choice.
proof fn lemma_cover_log_replace(o: Net, acts: Seq<Set<int>>, x: Seq<Link>, l: int, a2: Set<int>, y: Link)
    requires
        cover_log(o, acts, x, l + 1),
        acts.len() == l + 2,
        0 <= l,
        l < x.len(),
        level_log(o, acts[l], a2, y as int),
    ensures
        cover_log(o, acts.update(l + 1, a2), x.update(l, y), l + 1),
{
    reveal(cover_log);
    let acts2 = acts.update(l + 1, a2);
    let x2 = x.update(l, y);
    assert(acts2[0] == acts[0]);
    assert forall|k: int| 0 <= k < l + 1 implies #[trigger] level_log(o, acts2[k], acts2[k + 1], x2[k] as int) by {
        if k < l {
            assert(level_log(o, acts[k], acts[k + 1], x[k] as int));
        }
    }
}

/// The log without its last level.
proof fn lemma_cover_log_take(o: Net, acts: Seq<Set<int>>, x: Seq<Link>, l: int)
    requires
        cover_log(o, acts, x, l + 1),
        acts.len() == l + 2,
        0 <= l,
    ensures
        cover_log(o, acts.take(l + 1), x, l),
{
    reveal(cover_log);
    let acts2 = acts.take(l + 1);
    assert(acts2[0] == acts[0]);
    assert forall|k: int| 0 <= k < l implies #[trigger] level_log(o, acts2[k], acts2[k + 1], x[k] as int) by {
        assert(level_log(o, acts[k], acts[k + 1], x[k] as int));
    }
}

/// An item still to cover at level `0` and no longer at level `n` was
/// taken out by one of the levels between.
proof fn lemma_taken_out(acts: Seq<Set<int>>, c: int, n: int)
    requires
        0 <= n < acts.len(),
        acts[0].contains(c),
        !acts[n].contains(c),
    ensures
        exists|k: int| 0 <= k < n && #[trigger] acts[k].contains(c) && !acts[k + 1].contains(c),
    decreases n,
{
    if acts[n - 1].contains(c) {
        assert(acts[n - 1].contains(c) && !acts[n].contains(c));
    } else {
        lemma_taken_out(acts, c, n - 1);
    }
}

/// Items still to cover only get fewer along the levels.
proof fn lemma_fewer(acts: Seq<Set<int>>, l: int, a: int, b: int)
    requires
        forall|k: int| 0 < k <= l ==> #[trigger] acts[k].subset_of(acts[k - 1]),
        0 <= a <= b <= l,
    ensures
        acts[b].subset_of(acts[a]),
    decreases b - a,
{
    if a < b {
        lemma_fewer(acts, l, a, b - 1);
        assert(acts[b].subset_of(acts[b - 1]));
    }
}

/// When no primary item is left to cover, the options chosen cover every
/// primary item exactly once.
proof fn lemma_log_exact(o: Net, acts: Seq<Set<int>>, x: Seq<Link>, l: int)
    requires
        cover_log(o, acts, x, l),
        acts.len() == l + 1,
        0 <= l <= x.len(),
        forall|c: int| 1 <= c <= o.primary ==> !acts[l].contains(c),
    ensures
        exact_cover(o, x.take(l)),
{
    reveal(cover_log);
    reveal(level_log);
    let xs = x.take(l);
    assert forall|k: int| 0 < k <= l implies #[trigger] acts[k].subset_of(acts[k - 1]) by {
        assert(level_log(o, acts[k - 1], acts[k - 1 + 1], x[k - 1] as int));
    }
    assert forall|c: int| #[trigger] o.is_hdr(c) implies {
        &&& c <= o.primary ==> exists|k: int| 0 <= k < xs.len() && #[trigger] in_option(o, xs[k] as int, c)
        &&& (c <= o.primary || !o.colored) ==> forall|k1: int, k2: int|
            0 <= k1 < xs.len() && 0 <= k2 < xs.len() && #[trigger] in_option(o, xs[k1] as int, c)
                && #[trigger] in_option(o, xs[k2] as int, c) ==> k1 == k2
    } by {
        if c <= o.primary {
            assert(acts[0].contains(c));
            lemma_taken_out(acts, c, l);
            let k = choose|k: int| 0 <= k < l && #[trigger] acts[k].contains(c) && !acts[k + 1].contains(c);
            assert(level_log(o, acts[k], acts[k + 1], x[k] as int));
            assert(xs[k] == x[k]);
            assert(in_option(o, xs[k] as int, c));
        }
        if c <= o.primary || !o.colored {
            assert forall|k1: int, k2: int|
                0 <= k1 < xs.len() && 0 <= k2 < xs.len() && #[trigger] in_option(o, xs[k1] as int, c)
                    && #[trigger] in_option(o, xs[k2] as int, c) implies k1 == k2 by {
                if k1 != k2 {
                    let a = if k1 < k2 { k1 } else { k2 };
                    let b = if k1 < k2 { k2 } else { k1 };
                    assert(in_option(o, xs[a] as int, c) && in_option(o, xs[b] as int, c));
                    assert(xs[a] == x[a] && xs[b] == x[b]);
                    let ea = choose|e: int| #[trigger] same_option(o, x[a] as int, e) && o.is_opt(e) && o.hdr[e] == c;
                    let eb = choose|e: int| #[trigger] same_option(o, x[b] as int, e) && o.is_opt(e) && o.hdr[e] == c;
                    assert(level_log(o, acts[a], acts[a + 1], x[a] as int));
                    assert(level_log(o, acts[b], acts[b + 1], x[b] as int));
                    assert(!acts[a + 1].contains(c));
                    assert(acts[b].contains(c));
                    lemma_fewer(acts, l, a + 1, b);
                }
            }
        }
    }
}

/// Two of the options of the entries `xs` share an item only with the same
/// positive color on it: never in a problem without colors.
pub open spec fn colors_agree(o: Net, xs: Seq<Link>) -> bool {
    forall|k1: int, k2: int, e1: int, e2: int|
        0 <= k1 < k2 < xs.len() && #[trigger] same_option(o, xs[k1] as int, e1) && #[trigger] same_option(
            o,
            xs[k2] as int,
            e2,
        ) && o.is_opt(e1) && o.is_opt(e2) && o.hdr[e1] == o.hdr[e2] ==> o.color[e1] == o.color[e2] && o.color[e1]
            > 0
}

/// The color of an entry at level `k` of a search is the color it began
/// with, or `-1`, set by a level before `k` that took its item out of those
/// still to cover by committing a live entry of that item and color.
proof fn lemma_color_history(o: Net, tr: Seq<LinksV>, acts: Seq<Set<int>>, x: Seq<Link>, l: int, k: int, e: int)
    requires
        tr.len() == l + 1,
        tr[0].net == o,
        o.wf(),
        forall|j: int| 0 <= j < l ==> #[trigger] level_colors(tr[j].net, tr[j + 1].net, acts[j], acts[j + 1], x[j] as int),
        forall|j: int| 0 <= j <= l ==> #[trigger] tr[j].net.same_frame(o),
        0 <= k <= l,
        o.is_opt(e),
        live(o, e),
    ensures
        tr[k].net.color[e] == o.color[e] || (tr[k].net.color[e] == -1 && exists|j: int, q: int|
            0 <= j < k && #[trigger] same_option(tr[j].net, x[j] as int, q) && tr[j].net.is_opt(q) && live(
                tr[j].net,
                q,
            ) && tr[j].net.color[q] > 0 && tr[j].net.hdr[q] == o.hdr[e] && o.color[e] == tr[j].net.color[q]
                && acts[j].contains(o.hdr[e] as int) && !acts[j + 1].contains(o.hdr[e] as int)),
    decreases k,
{
    if k > 0 {
        lemma_color_history(o, tr, acts, x, l, k - 1, e);
        let s = tr[k - 1].net;
        let t = tr[k].net;
        assert(level_colors(s, t, acts[k - 1], acts[k - 1 + 1], x[k - 1] as int));
        assert(s.same_frame(o) && t.same_frame(o));
        assert(s.hdr[e] == o.hdr[e]);
        if t.color[e] != s.color[e] {
            reveal(level_colors);
            assert(e < s.color.len());
            let q = choose|q: int|
                #[trigger] same_option(s, x[k - 1] as int, q) && s.is_opt(q) && live(s, q) && s.color[q] > 0
                    && s.hdr[q] == s.hdr[e] && s.color[e] == s.color[q];
            assert(s.color[e] > 0);
            assert(same_option(tr[k - 1].net, x[k - 1] as int, q));
        } else if t.color[e] != o.color[e] {
            let (j, q) = choose|j: int, q: int|
                0 <= j < k - 1 && #[trigger] same_option(tr[j].net, x[j] as int, q) && tr[j].net.is_opt(q) && live(
                    tr[j].net,
                    q,
                ) && tr[j].net.color[q] > 0 && tr[j].net.hdr[q] == o.hdr[e] && o.color[e] == tr[j].net.color[q]
                    && acts[j].contains(o.hdr[e] as int) && !acts[j + 1].contains(o.hdr[e] as int);
            assert(same_option(tr[j].net, x[j] as int, q));
        }
    }
}

/// The level `f` (at most `k`) at which the item of the entry `e` of the
/// option of level `k` stopped being to cover, and the entry `q` of that
/// item, live, in the option of level `f`, whose color `e` has; when `f`
/// comes before `k`, that color is positive.
proof fn lemma_leave(o: Net, tr: Seq<LinksV>, acts: Seq<Set<int>>, x: Seq<Link>, l: int, k: int, e: int) -> (r: (int, int))
    requires
        tr.len() == l + 1,
        tr[0].net == o,
        o.wf(),
        forall|j: int| 0 <= j < l ==> #[trigger] level_colors(tr[j].net, tr[j + 1].net, acts[j], acts[j + 1], x[j] as int),
        forall|j: int| 0 <= j <= l ==> #[trigger] tr[j].net.same_frame(o),
        0 <= k < l,
        o.is_opt(x[k] as int),
        same_option(o, x[k] as int, e),
        o.is_opt(e),
        live(o, e),
    ensures
        0 <= r.0 <= k,
        acts[r.0].contains(o.hdr[e] as int),
        !acts[r.0 + 1].contains(o.hdr[e] as int),
        same_option(tr[r.0].net, x[r.0] as int, r.1),
        tr[r.0].net.is_opt(r.1),
        live(tr[r.0].net, r.1),
        tr[r.0].net.hdr[r.1] == o.hdr[e],
        tr[r.0].net.color[r.1] == o.color[e],
        r.0 < k ==> o.color[e] > 0,
{
    let c = o.hdr[e] as int;
    lemma_color_history(o, tr, acts, x, l, k, e);
    let s = tr[k].net;
    assert(level_colors(s, tr[k + 1].net, acts[k], acts[k + 1], x[k] as int));
    assert(s.same_frame(o));
    assert(s.hdr[e] == o.hdr[e]);
    assert(s.hdr[x[k] as int] == o.hdr[x[k] as int]);
    if s.color[e] == o.color[e] {
        assert(live(s, e));
        lemma_same_option_frame(s, o, x[k] as int, e);
        reveal(level_colors);
        assert(same_option(s, x[k] as int, e));
        (k, e)
    } else {
        let (j, q) = choose|j: int, q: int|
            0 <= j < k && #[trigger] same_option(tr[j].net, x[j] as int, q) && tr[j].net.is_opt(q) && live(
                tr[j].net,
                q,
            ) && tr[j].net.color[q] > 0 && tr[j].net.hdr[q] == o.hdr[e] && o.color[e] == tr[j].net.color[q]
                && acts[j].contains(o.hdr[e] as int) && !acts[j + 1].contains(o.hdr[e] as int);
        (j, q)
    }
}

/// Two options chosen by a search that share an item give it the same
/// positive color.
proof fn lemma_agree(o: Net, tr: Seq<LinksV>, acts: Seq<Set<int>>, x: Seq<Link>, l: int)
    requires
        tr.len() == l + 1,
        acts.len() == l + 1,
        0 <= l <= x.len(),
        tr[0].net == o,
        o.wf(),
        forall|q: int| #[trigger] o.is_opt(q) ==> live(o, q),
        forall|j: int| 0 <= j < l ==> #[trigger] level_colors(tr[j].net, tr[j + 1].net, acts[j], acts[j + 1], x[j] as int),
        forall|j: int| 0 <= j <= l ==> #[trigger] tr[j].net.same_frame(o),
        forall|j: int| 0 < j <= l ==> #[trigger] acts[j].subset_of(acts[j - 1]),
        forall|j: int| 0 <= j < l ==> o.is_opt(#[trigger] x[j] as int),
    ensures
        colors_agree(o, x.take(l)),
{
    let xs = x.take(l);
    assert forall|k1: int, k2: int, e1: int, e2: int|
        0 <= k1 < k2 < xs.len() && #[trigger] same_option(o, xs[k1] as int, e1) && #[trigger] same_option(
            o,
            xs[k2] as int,
            e2,
        ) && o.is_opt(e1) && o.is_opt(e2) && o.hdr[e1] == o.hdr[e2] implies o.color[e1] == o.color[e2] && o.color[e1]
        > 0 by {
        assert(xs[k1] == x[k1] && xs[k2] == x[k2]);
        assert(o.is_opt(x[k1] as int) && o.is_opt(x[k2] as int));
        let (f1, q1) = lemma_leave(o, tr, acts, x, l, k1, e1);
        let (f2, q2) = lemma_leave(o, tr, acts, x, l, k2, e2);
        let c = o.hdr[e1] as int;
        if f1 < f2 {
            lemma_fewer(acts, l, f1 + 1, f2);
        } else if f2 < f1 {
            lemma_fewer(acts, l, f2 + 1, f1);
        }
        assert(f1 == f2);
        let f = f1;
        assert(level_colors(tr[f].net, tr[f + 1].net, acts[f], acts[f + 1], x[f] as int));
        reveal(level_colors);
        assert(q1 == q2);
    }
}

/// The levels of a search from the consistent state `origin`: `tr[k]` is
/// the state at level `k`, consistent with the items `acts[k]` still to
/// cover and the column lists `colss[k]`; level `k` covered the item
/// `items[k]` and committed its entry `x[k]`, number `ms[k]` of its column;
/// the current links `cur` are those of level `l`.
#[verifier::opaque]
pub open spec fn trail_valid(
    origin: LinksV,
    tr: Seq<LinksV>,
    acts: Seq<Set<int>>,
    colss: Seq<Seq<Seq<int>>>,
    lsts: Seq<(Seq<int>, Seq<int>)>,
    items: Seq<int>,
    ms: Seq<int>,
    x: Seq<Link>,
    l: int,
    cur: Net,
) -> bool {
    &&& 0 <= l
    &&& tr.len() == l + 1
    &&& acts.len() == l + 1
    &&& colss.len() == l + 1
    &&& lsts.len() == l + 1
    &&& forall|k: int|
        #![trigger lsts[k]]
        0 <= k <= l ==> lists_ok(tr[k].net, acts[k], lsts[k].0, lsts[k].1) && colors_secondary(tr[k].net)
    &&& items.len() == l
    &&& ms.len() == l
    &&& l <= x.len()
    &&& tr[0] == origin
    &&& !origin.net.multi
    &&& forall|k: int| 0 <= k <= l ==> #[trigger] consistent(tr[k], acts[k], colss[k])
    &&& forall|k: int| 0 <= k <= l ==> #[trigger] tr[k].net.same_frame(origin.net)
    &&& forall|k: int|
        0 <= k < l ==> {
            &&& acts[k].contains(#[trigger] items[k])
            &&& 0 <= ms[k] < colss[k][items[k]].len()
            &&& x[k] == colss[k][items[k]][ms[k]]
            &&& tr[k + 1] == tr[k].cover(items[k]).commit_option(x[k] as int)
        }
    &&& cover_log(origin.net, acts, x, l)
    &&& trail_colors(tr, acts, x, l)
    &&& forall|q: int| #[trigger] origin.net.is_opt(q) ==> live(origin.net, q)
    &&& cur == tr[l].net
}

/// The trail does not read the choices beyond its level.
proof fn lemma_trail_x(
    origin: LinksV,
    tr: Seq<LinksV>,
    acts: Seq<Set<int>>,
    colss: Seq<Seq<Seq<int>>>,
    lsts: Seq<(Seq<int>, Seq<int>)>,
    items: Seq<int>,
    ms: Seq<int>,
    x: Seq<Link>,
    x2: Seq<Link>,
    l: int,
    cur: Net,
)
    requires
        trail_valid(origin, tr, acts, colss, lsts, items, ms, x, l, cur),
        l <= x2.len(),
        forall|k: int| 0 <= k < l ==> x2[k] == x[k],
    ensures
        trail_valid(origin, tr, acts, colss, lsts, items, ms, x2, l, cur),
{
    reveal(trail_valid);
    assert forall|k: int| 0 <= k < l implies {
        &&& acts[k].contains(#[trigger] items[k])
        &&& 0 <= ms[k] < colss[k][items[k]].len()
        &&& x2[k] == colss[k][items[k]][ms[k]]
        &&& tr[k + 1] == tr[k].cover(items[k]).commit_option(x2[k] as int)
    } by {
        assert(acts[k].contains(items[k]));
        assert(x2[k] == x[k]);
    }
    lemma_cover_log_x(origin.net, acts, x, x2, l);
    lemma_trail_colors_x(tr, acts, x, x2, l);
}

/// The item the chooser gives at level `l`, other than node `0`, is
/// still to cover.
proof fn lemma_trail_choice(
    origin: LinksV,
    tr: Seq<LinksV>,
    acts: Seq<Set<int>>,
    colss: Seq<Seq<Seq<int>>>,
    lsts: Seq<(Seq<int>, Seq<int>)>,
    items: Seq<int>,
    ms: Seq<int>,
    x: Seq<Link>,
    l: int,
    v: LinksV,
    i: int,
)
    requires
        trail_valid(origin, tr, acts, colss, lsts, items, ms, x, l, v.net),
        i == v.net.right[0] || active_items(v).contains(i),
        i != 0,
    ensures
        acts[l].contains(i),
{
    reveal(trail_valid);
    assert(lists_ok(tr[l].net, acts[l], lsts[l].0, lsts[l].1) && colors_secondary(tr[l].net));
    lemma_active_items_in(v, acts[l], lsts[l].0, lsts[l].1, i);
}

/// At a level with no primary item left in its list, the options chosen
/// so far cover every primary item of the problem exactly once.
proof fn lemma_trail_solution(
    origin: LinksV,
    tr: Seq<LinksV>,
    acts: Seq<Set<int>>,
    colss: Seq<Seq<Seq<int>>>,
    lsts: Seq<(Seq<int>, Seq<int>)>,
    items: Seq<int>,
    ms: Seq<int>,
    x: Seq<Link>,
    l: int,
    cur: Net,
)
    requires
        trail_valid(origin, tr, acts, colss, lsts, items, ms, x, l, cur),
        cur.right[0] == 0,
    ensures
        exact_cover(origin.net, x.take(l)),
{
    reveal(trail_valid);
    let lst = lsts[l].0;
    assert(lists_ok(tr[l].net, acts[l], lsts[l].0, lsts[l].1));
    if lst.len() > 0 {
        assert(1 <= lst[0]);
    }
    assert(tr[l].net.same_frame(origin.net));
    assert forall|c: int| 1 <= c <= origin.net.primary implies !acts[l].contains(c) by {
        if acts[l].contains(c) {
            assert(c <= tr[l].net.primary);
            assert(lst.contains(c));
        }
    }
    lemma_log_exact(origin.net, acts, x, l);
}

/// The options chosen by the levels of a search share an item only with
/// the same positive color on it.
proof fn lemma_trail_agree(
    origin: LinksV,
    tr: Seq<LinksV>,
    acts: Seq<Set<int>>,
    colss: Seq<Seq<Seq<int>>>,
    lsts: Seq<(Seq<int>, Seq<int>)>,
    items: Seq<int>,
    ms: Seq<int>,
    x: Seq<Link>,
    l: int,
    cur: Net,
)
    requires
        trail_valid(origin, tr, acts, colss, lsts, items, ms, x, l, cur),
    ensures
        colors_agree(origin.net, x.take(l)),
{
    reveal(trail_valid);
    reveal(cover_log);
    reveal(trail_colors);
    assert(consistent(tr[0], acts[0], colss[0]));
    assert forall|j: int| 0 < j <= l implies #[trigger] acts[j].subset_of(acts[j - 1]) by {
        assert(level_log(origin.net, acts[j - 1], acts[j - 1 + 1], x[j - 1] as int));
        reveal(level_log);
    }
    assert forall|j: int| 0 <= j < l implies origin.net.is_opt(#[trigger] x[j] as int) by {
        assert(consistent(tr[j], acts[j], colss[j]));
        assert(acts[j].contains(items[j]));
        assert(column(tr[j].net, items[j], colss[j][items[j]]));
        assert(tr[j].net.is_opt(x[j] as int));
        assert(tr[j].net.same_frame(origin.net));
    }
    lemma_agree(origin.net, tr, acts, x, l);
}

/// Going down a level: the chosen item `i`, still to cover, is covered
/// and its first entry `x[l]` committed.
proof fn lemma_trail_forward(
    origin: LinksV,
    tr: Seq<LinksV>,
    acts: Seq<Set<int>>,
    colss: Seq<Seq<Seq<int>>>,
    lsts: Seq<(Seq<int>, Seq<int>)>,
    items: Seq<int>,
    ms: Seq<int>,
    x: Seq<Link>,
    l: int,
    cur: Net,
    s: LinksV,
    i: int,
) -> (r: (Seq<LinksV>, Seq<Set<int>>, Seq<Seq<Seq<int>>>, Seq<(Seq<int>, Seq<int>)>))
    requires
        trail_valid(origin, tr, acts, colss, lsts, items, ms, x, l, cur),
        s.net == cur,
        acts[l].contains(i),
        l < x.len(),
        colss[l][i].len() > 0,
        x[l] == colss[l][i][0],
    ensures
        trail_valid(origin, r.0, r.1, r.2, r.3, items.push(i), ms.push(0), x, l + 1, s.cover(i).commit_option(
            x[l] as int,
        ).net),
{
    reveal(trail_valid);
    assert(consistent(tr[l], acts[l], colss[l]));
    assert(lists_ok(tr[l].net, acts[l], lsts[l].0, lsts[l].1) && colors_secondary(tr[l].net));
    let (a2, c2, l2, sl2) = law_level_lists(tr[l], acts[l], colss[l], lsts[l].0, lsts[l].1, i, 0);
    let t2 = tr[l].cover(i).commit_option(x[l] as int);
    assert(tr[l].net.same_frame(origin.net));
    assert(column(tr[l].net, i, colss[l][i]));
    assert(tr[l].net.is_opt(x[l] as int));
    lemma_level_log_frame(tr[l].net, origin.net, acts[l], a2, x[l] as int);
    lemma_cover_log_push(origin.net, acts, x, l, a2);
    lemma_trail_colors_push(tr, acts, x, l, t2, a2);
    lemma_frame_trans(t2.net, tr[l].net, origin.net);
    lemma_cover_net(s, tr[l], i);
    lemma_commit_option_net(s.cover(i), tr[l].cover(i), x[l] as int);
    let tr2 = tr.push(t2);
    let acts2 = acts.push(a2);
    let colss2 = colss.push(c2);
    let lsts2 = lsts.push((l2, sl2));
    let items2 = items.push(i);
    let ms2 = ms.push(0);
    assert forall|k: int| 0 <= k <= l + 1 implies #[trigger] consistent(tr2[k], acts2[k], colss2[k]) by {
        if k <= l {
            assert(tr2[k] == tr[k] && acts2[k] == acts[k] && colss2[k] == colss[k]);
        }
    }
    assert forall|k: int| #![trigger lsts2[k]] 0 <= k <= l + 1 implies lists_ok(tr2[k].net, acts2[k], lsts2[k].0, lsts2[k].1)
        && colors_secondary(tr2[k].net) by {
        if k <= l {
            assert(tr2[k] == tr[k] && acts2[k] == acts[k] && lsts2[k] == lsts[k]);
            assert(lists_ok(tr[k].net, acts[k], lsts[k].0, lsts[k].1) && colors_secondary(tr[k].net));
        }
    }
    assert forall|k: int| 0 <= k <= l + 1 implies #[trigger] tr2[k].net.same_frame(origin.net) by {
        if k <= l {
            assert(tr2[k] == tr[k]);
        }
    }
    assert forall|k: int| 0 <= k < l + 1 implies {
        &&& acts2[k].contains(#[trigger] items2[k])
        &&& 0 <= ms2[k] < colss2[k][items2[k]].len()
        &&& x[k] == colss2[k][items2[k]][ms2[k]]
        &&& tr2[k + 1] == tr2[k].cover(items2[k]).commit_option(x[k] as int)
    } by {
        if k < l {
            assert(acts[k].contains(items[k]));
            assert(items2[k] == items[k] && ms2[k] == ms[k] && tr2[k] == tr[k] && tr2[k + 1] == tr[k + 1]);
            assert(acts2[k] == acts[k] && colss2[k] == colss[k]);
        } else {
            assert(items2[k] == i && ms2[k] == 0 && tr2[k] == tr[l] && tr2[k + 1] == t2);
            assert(acts2[k] == acts[l] && colss2[k] == colss[l]);
        }
    }
    (tr2, acts2, colss2, lsts2)
}

/// Covering the chosen item `i`, still to cover, and uncovering it again
/// at once leaves the links of the level.
proof fn lemma_trail_empty(
    origin: LinksV,
    tr: Seq<LinksV>,
    acts: Seq<Set<int>>,
    colss: Seq<Seq<Seq<int>>>,
    lsts: Seq<(Seq<int>, Seq<int>)>,
    items: Seq<int>,
    ms: Seq<int>,
    x: Seq<Link>,
    l: int,
    cur: Net,
    s: LinksV,
    i: int,
)
    requires
        trail_valid(origin, tr, acts, colss, lsts, items, ms, x, l, cur),
        s.net == cur,
        acts[l].contains(i),
    ensures
        trail_valid(origin, tr, acts, colss, lsts, items, ms, x, l, s.cover(i).uncover(i).net),
        column(cur, i, colss[l][i]),
{
    reveal(trail_valid);
    assert(consistent(tr[l], acts[l], colss[l]));
    lemma_consistent_cover_ok(tr[l], acts[l], colss[l], i);
    law_uncover_cover(tr[l], i, colss[l][i]);
    lemma_cover_net(s, tr[l], i);
    lemma_uncover_net(s.cover(i), tr[l].cover(i), i);
}

/// What the trail says of the level `l` the search stands at.
proof fn lemma_trail_here(
    origin: LinksV,
    tr: Seq<LinksV>,
    acts: Seq<Set<int>>,
    colss: Seq<Seq<Seq<int>>>,
    lsts: Seq<(Seq<int>, Seq<int>)>,
    items: Seq<int>,
    ms: Seq<int>,
    x: Seq<Link>,
    l: int,
    cur: Net,
)
    requires
        trail_valid(origin, tr, acts, colss, lsts, items, ms, x, l, cur),
    ensures
        0 <= l,
        consistent(tr[l], acts[l], colss[l]),
        tr[l].net.same_frame(origin.net),
        cur == tr[l].net,
        tr[0] == origin,
        !origin.net.multi,
{
    reveal(trail_valid);
    assert(consistent(tr[l], acts[l], colss[l]));
    assert(tr[l].net.same_frame(origin.net));
}

/// What the trail says of level `l` when the search stands at level
/// `l + 1`.
proof fn lemma_trail_level(
    origin: LinksV,
    tr: Seq<LinksV>,
    acts: Seq<Set<int>>,
    colss: Seq<Seq<Seq<int>>>,
    lsts: Seq<(Seq<int>, Seq<int>)>,
    items: Seq<int>,
    ms: Seq<int>,
    x: Seq<Link>,
    l: int,
    cur: Net,
)
    requires
        0 <= l,
        trail_valid(origin, tr, acts, colss, lsts, items, ms, x, l + 1, cur),
    ensures
        consistent(tr[l], acts[l], colss[l]),
        lists_ok(tr[l].net, acts[l], lsts[l].0, lsts[l].1),
        colors_secondary(tr[l].net),
        acts[l].contains(items[l]),
        0 <= ms[l] < colss[l][items[l]].len(),
        x[l] == colss[l][items[l]][ms[l]],
        tr[l + 1] == tr[l].cover(items[l]).commit_option(x[l] as int),
        tr[l].net.same_frame(origin.net),
        tr[l + 1].net.same_frame(origin.net),
        cur == tr[l + 1].net,
        tr.len() == l + 2,
        acts.len() == l + 2,
        colss.len() == l + 2,
        lsts.len() == l + 2,
        items.len() == l + 1,
        ms.len() == l + 1,
        l + 1 <= x.len(),
        tr[0] == origin,
        !origin.net.multi,
{
    reveal(trail_valid);
    assert(consistent(tr[l], acts[l], colss[l]));
    assert(lists_ok(tr[l].net, acts[l], lsts[l].0, lsts[l].1) && colors_secondary(tr[l].net));
    assert(acts[l].contains(items[l]));
    assert(tr[l].net.same_frame(origin.net));
    assert(tr[l + 1].net.same_frame(origin.net));
}

/// Replacing level `l + 1` of the trail by the level that tried the next
/// entry `y` of the column of the item of level `l`.
#[verifier::spinoff_prover]
#[verifier::rlimit(100)]
proof fn lemma_trail_replace(
    origin: LinksV,
    tr: Seq<LinksV>,
    acts: Seq<Set<int>>,
    colss: Seq<Seq<Seq<int>>>,
    lsts: Seq<(Seq<int>, Seq<int>)>,
    items: Seq<int>,
    ms: Seq<int>,
    x: Seq<Link>,
    l: int,
    cur: Net,
    t2: LinksV,
    a2: Set<int>,
    c2: Seq<Seq<int>>,
    ls2: (Seq<int>, Seq<int>),
)
    requires
        0 <= l,
        trail_valid(origin, tr, acts, colss, lsts, items, ms, x, l + 1, cur),
        ms[l] + 1 < colss[l][items[l]].len(),
        t2 == tr[l].cover(items[l]).commit_option(colss[l][items[l]][ms[l] + 1]),
        consistent(t2, a2, c2),
        lists_ok(t2.net, a2, ls2.0, ls2.1),
        colors_secondary(t2.net),
        t2.net.same_frame(origin.net),
        level_log(origin.net, acts[l], a2, colss[l][items[l]][ms[l] + 1]),
        level_colors(tr[l].net, t2.net, acts[l], a2, colss[l][items[l]][ms[l] + 1]),
    ensures
        trail_valid(
            origin,
            tr.update(l + 1, t2),
            acts.update(l + 1, a2),
            colss.update(l + 1, c2),
            lsts.update(l + 1, ls2),
            items,
            ms.update(l, ms[l] + 1),
            x.update(l, colss[l][items[l]][ms[l] + 1] as Link),
            l + 1,
            t2.net,
        ),
{
    reveal(trail_valid);
    let y = colss[l][items[l]][ms[l] + 1];
    let tr2 = tr.update(l + 1, t2);
    let acts2 = acts.update(l + 1, a2);
    let colss2 = colss.update(l + 1, c2);
    let lsts2 = lsts.update(l + 1, ls2);
    let ms2 = ms.update(l, ms[l] + 1);
    let x2 = x.update(l, y as Link);
    assert(consistent(tr[l], acts[l], colss[l]));
    assert(column(tr[l].net, items[l], colss[l][items[l]])) by {
        assert(acts[l].contains(items[l]));
    }
    assert(tr[l].net.is_opt(y));
    assert(0 <= y);
    lemma_cover_log_replace(origin.net, acts, x, l, a2, y as Link);
    lemma_trail_colors_replace(tr, acts, x, l, t2, a2, y as Link);
    assert forall|k: int| 0 <= k <= l + 1 implies #[trigger] consistent(tr2[k], acts2[k], colss2[k]) by {
        if k <= l {
            assert(tr2[k] == tr[k] && acts2[k] == acts[k] && colss2[k] == colss[k]);
        }
    }
    assert forall|k: int| #![trigger lsts2[k]] 0 <= k <= l + 1 implies lists_ok(tr2[k].net, acts2[k], lsts2[k].0, lsts2[k].1)
        && colors_secondary(tr2[k].net) by {
        if k <= l {
            assert(tr2[k] == tr[k] && acts2[k] == acts[k] && lsts2[k] == lsts[k]);
            assert(lists_ok(tr[k].net, acts[k], lsts[k].0, lsts[k].1) && colors_secondary(tr[k].net));
        }
    }
    assert forall|k: int| 0 <= k <= l + 1 implies #[trigger] tr2[k].net.same_frame(origin.net) by {
        if k <= l {
            assert(tr2[k] == tr[k]);
        }
    }
    assert forall|k: int| 0 <= k < l + 1 implies {
        &&& acts2[k].contains(#[trigger] items[k])
        &&& 0 <= ms2[k] < colss2[k][items[k]].len()
        &&& x2[k] == colss2[k][items[k]][ms2[k]]
        &&& tr2[k + 1] == tr2[k].cover(items[k]).commit_option(x2[k] as int)
    } by {
        if k < l {
            assert(acts[k].contains(items[k]));
            assert(ms2[k] == ms[k] && x2[k] == x[k] && tr2[k] == tr[k] && tr2[k + 1] == tr[k + 1]);
            assert(acts2[k] == acts[k] && colss2[k] == colss[k]);
        } else {
            assert(acts[l].contains(items[l]));
            assert(ms2[k] == ms[l] + 1 && x2[k] == y && tr2[k] == tr[l] && tr2[k + 1] == t2);
            assert(acts2[k] == acts[l] && colss2[k] == colss[l]);
        }
    }
}

/// Backtracking to level `l` and trying the next entry `y` of the column
/// of its item.
proof fn lemma_trail_next(
    origin: LinksV,
    tr: Seq<LinksV>,
    acts: Seq<Set<int>>,
    colss: Seq<Seq<Seq<int>>>,
    lsts: Seq<(Seq<int>, Seq<int>)>,
    items: Seq<int>,
    ms: Seq<int>,
    x: Seq<Link>,
    l: int,
    cur: Net,
    t: LinksV,
) -> (r: (Seq<LinksV>, Seq<Set<int>>, Seq<Seq<Seq<int>>>, Seq<(Seq<int>, Seq<int>)>))
    requires
        0 <= l,
        trail_valid(origin, tr, acts, colss, lsts, items, ms, x, l + 1, cur),
        ms[l] + 1 < colss[l][items[l]].len(),
        t.net == tr[l].cover(items[l]).net,
    ensures
        trail_valid(
            origin,
            r.0,
            r.1,
            r.2,
            r.3,
            items,
            ms.update(l, ms[l] + 1),
            x.update(l, colss[l][items[l]][ms[l] + 1] as Link),
            l + 1,
            t.commit_option(colss[l][items[l]][ms[l] + 1]).net,
        ),
{
    lemma_trail_level(origin, tr, acts, colss, lsts, items, ms, x, l, cur);
    let i = items[l];
    let m = ms[l];
    let t0 = tr[l];
    let s1 = t0.cover(i);
    let (a2, c2, l2, sl2) = law_level_lists(t0, acts[l], colss[l], lsts[l].0, lsts[l].1, i, m + 1);
    let y = colss[l][i][m + 1];
    let t2 = s1.commit_option(y);
    lemma_frame_trans(t2.net, t0.net, origin.net);
    assert(column(t0.net, i, colss[l][i]));
    assert(t0.net.is_opt(y));
    lemma_level_log_frame(t0.net, origin.net, acts[l], a2, y);
    lemma_commit_option_net(t, s1, y);
    lemma_trail_replace(origin, tr, acts, colss, lsts, items, ms, x, l, cur, t2, a2, c2, (l2, sl2));
    (tr.update(l + 1, t2), acts.update(l + 1, a2), colss.update(l + 1, c2), lsts.update(l + 1, (l2, sl2)))
}

/// Backtracking from level `l + 1` to level `l`: the links are those of
/// level `l` again.
#[verifier::spinoff_prover]
proof fn lemma_trail_pop(
    origin: LinksV,
    tr: Seq<LinksV>,
    acts: Seq<Set<int>>,
    colss: Seq<Seq<Seq<int>>>,
    lsts: Seq<(Seq<int>, Seq<int>)>,
    items: Seq<int>,
    ms: Seq<int>,
    x: Seq<Link>,
    l: int,
    cur: Net,
    cur2: Net,
)
    requires
        0 <= l,
        trail_valid(origin, tr, acts, colss, lsts, items, ms, x, l + 1, cur),
        cur2 == tr[l].net,
    ensures
        trail_valid(
            origin,
            tr.take(l + 1),
            acts.take(l + 1),
            colss.take(l + 1),
            lsts.take(l + 1),
            items.take(l),
            ms.take(l),
            x,
            l,
            cur2,
        ),
{
    reveal(trail_valid);
    let tr2 = tr.take(l + 1);
    let acts2 = acts.take(l + 1);
    let colss2 = colss.take(l + 1);
    let lsts2 = lsts.take(l + 1);
    assert forall|k: int| 0 <= k <= l implies #[trigger] consistent(tr2[k], acts2[k], colss2[k]) by {
        assert(tr2[k] == tr[k] && acts2[k] == acts[k] && colss2[k] == colss[k]);
    }
    assert forall|k: int| #![trigger lsts2[k]] 0 <= k <= l implies lists_ok(tr2[k].net, acts2[k], lsts2[k].0, lsts2[k].1)
        && colors_secondary(tr2[k].net) by {
        assert(tr2[k] == tr[k] && acts2[k] == acts[k] && lsts2[k] == lsts[k]);
        assert(lists_ok(tr[k].net, acts[k], lsts[k].0, lsts[k].1) && colors_secondary(tr[k].net));
    }
    assert forall|k: int| 0 <= k <= l implies #[trigger] tr2[k].net.same_frame(origin.net) by {
        assert(tr2[k] == tr[k]);
    }
    assert forall|k: int| 0 <= k < l implies {
        &&& acts2[k].contains(#[trigger] items.take(l)[k])
        &&& 0 <= ms.take(l)[k] < colss2[k][items.take(l)[k]].len()
        &&& x[k] == colss2[k][items.take(l)[k]][ms.take(l)[k]]
        &&& tr2[k + 1] == tr2[k].cover(items.take(l)[k]).commit_option(x[k] as int)
    } by {
        assert(acts[k].contains(items[k]));
        assert(items.take(l)[k] == items[k] && ms.take(l)[k] == ms[k]);
        assert(tr2[k] == tr[k] && tr2[k + 1] == tr[k + 1] && acts2[k] == acts[k] && colss2[k] == colss[k]);
    }
    lemma_cover_log_take(origin.net, acts, x, l);
    lemma_trail_colors_take(tr, acts, x, l);
}

/// Backtracking to level `l`: uncommitting the entry `x[l]` and either
/// committing the next entry of the column of its item, when there is one,
/// or uncovering the item.
proof fn lemma_trail_back(
    origin: LinksV,
    tr: Seq<LinksV>,
    acts: Seq<Set<int>>,
    colss: Seq<Seq<Seq<int>>>,
    lsts: Seq<(Seq<int>, Seq<int>)>,
    items: Seq<int>,
    ms: Seq<int>,
    x: Seq<Link>,
    l: int,
    cur: Net,
    u: LinksV,
) -> (r: (Seq<LinksV>, Seq<Set<int>>, Seq<Seq<Seq<int>>>, Seq<(Seq<int>, Seq<int>)>))
    requires
        0 <= l,
        trail_valid(origin, tr, acts, colss, lsts, items, ms, x, l + 1, cur),
        u.net == cur,
    ensures
        ({
            let i = items[l];
            let t = u.uncommit_option(x[l] as int);
            let nx = t.net.down[x[l] as int] as int;
            &&& u.net.is_opt(x[l] as int)
            &&& u.net.hdr[x[l] as int] == i
            &&& nx != i ==> trail_valid(
                origin,
                r.0,
                r.1,
                r.2,
                r.3,
                items,
                ms.update(l, ms[l] + 1),
                x.update(l, nx as Link),
                l + 1,
                t.commit_option(nx).net,
            )
            &&& nx == i ==> trail_valid(
                origin,
                tr.take(l + 1),
                acts.take(l + 1),
                colss.take(l + 1),
                lsts.take(l + 1),
                items.take(l),
                ms.take(l),
                x,
                l,
                t.uncover(i).net,
            )
        }),
{
    lemma_trail_level(origin, tr, acts, colss, lsts, items, ms, x, l, cur);
    let i = items[l];
    let m = ms[l];
    let xl = x[l] as int;
    let t0 = tr[l];
    lemma_level_undo(t0, acts[l], colss[l], i, m, u);
    let t = u.uncommit_option(xl);
    let s1 = t0.cover(i);
    assert(t.net == s1.net);
    lemma_consistent_cover_ok(t0, acts[l], colss[l], i);
    assert(column(t0.net, i, colss[l][i]));
    assert(t0.net.is_opt(xl) && t0.net.hdr[xl] == i);
    assert(u.net.hdr[xl] == t0.net.hdr[xl]);
    let nx = t.net.down[xl] as int;
    if nx != i {
        assert(m + 1 < colss[l][i].len());
        assert(nx == colss[l][i][m + 1]);
        lemma_trail_next(origin, tr, acts, colss, lsts, items, ms, x, l, cur, t)
    } else {
        lemma_uncover_net(t, s1, i);
        law_uncover_cover(t0, i, colss[l][i]);
        lemma_trail_pop(origin, tr, acts, colss, lsts, items, ms, x, l, cur, t.uncover(i).net);
        (tr.take(l + 1), acts.take(l + 1), colss.take(l + 1), lsts.take(l + 1))
    }
}

/// The state `v` is consistent with the items `w.0` still to cover and
/// the column lists `w.1`, has the item lists `w.2` and `w.3`, and colors
/// only on entries of secondary items.
pub open spec fn start_witness(v: LinksV, w: (Set<int>, Seq<Seq<int>>, Seq<int>, Seq<int>)) -> bool {
    &&& consistent(v, w.0, w.1)
    &&& lists_ok(v.net, w.0, w.2, w.3)
    &&& colors_secondary(v.net)
    &&& forall|c: int| 1 <= c <= v.net.len ==> #[trigger] w.0.contains(c)
    &&& forall|q: int| #[trigger] v.net.is_opt(q) ==> live(v.net, q)
}

/// A search from the state `v` is known to undo itself.
pub open spec fn tracked_start(v: LinksV) -> bool {
    exists|w: (Set<int>, Seq<Seq<int>>, Seq<int>, Seq<int>)| start_witness(v, w)
}

/// A search for the solutions of a problem, one at a time.
pub struct Solver<P> {
    problem: P,
    x: Vec<Link>,
    o: Vec<isize>,
    profile: Vec<usize>,
    l: Count,
    i: Link,
    restart: bool,
    valid: bool,
    gave_up: bool,
    origin: Ghost<LinksV>,
    trail: Ghost<Seq<LinksV>>,
    acts: Ghost<Seq<Set<int>>>,
    colss: Ghost<Seq<Seq<Seq<int>>>>,
    lsts: Ghost<Seq<(Seq<int>, Seq<int>)>>,
    items: Ghost<Seq<int>>,
    ms: Ghost<Seq<int>>,
    tracking: Ghost<bool>,
    steps: Ghost<int>,
}

impl<P: Solve> Solver<P> {
    /// The nodes of the problem.
    pub closed spec fn state(&self) -> LinksV {
        self.problem.dance_view()
    }

    /// Whether the problem's nodes were well formed when the search began.
    pub closed spec fn is_valid(&self) -> bool {
        self.valid
    }

    /// The current level of the search.
    pub closed spec fn depth(&self) -> Count {
        self.l
    }

    /// Whether the search stands on the solution it reported last.
    pub closed spec fn pending(&self) -> bool {
        self.restart
    }

    /// The number of steps the last call of the search made.
    pub closed spec fn steps_taken(&self) -> int {
        self.steps@
    }

    /// Whether the last step of the search ran out of its step budget.
    pub closed spec fn gave_up(&self) -> bool {
        self.gave_up
    }

    /// The entries chosen at each level so far.
    pub closed spec fn choices(&self) -> Seq<Link> {
        self.x@
    }

    /// The number of times each level was entered.
    pub closed spec fn visits(&self) -> Seq<usize> {
        self.profile@
    }

    /// What the search keeps between steps.
    pub closed spec fn inv(&self) -> bool {
        &&& self.valid ==> {
            let v = self.problem.dance_view();
            &&& v.wf()
            &&& self.l <= self.x@.len()
            &&& self.profile@.len() == self.x@.len()
            &&& v.net.multi ==> v.ft.len() == self.x@.len()
            &&& forall|k: int| 0 <= k < self.l ==> v.net.is_col(#[trigger] self.x@[k] as int)
        }
        &&& self.trail_at(self.l as int)
        &&& self.tracking@ ==> self.valid
        &&& self.gave_up ==> self.steps@ == u64::MAX
    }

    /// The nodes of the problem when the search began.
    pub closed spec fn start(&self) -> LinksV {
        self.origin@
    }

    /// Whether the search is known to undo itself: it began from a
    /// consistent state, without multiplicities, with its item lists and
    /// colors only on entries of secondary items.
    pub closed spec fn tracks(&self) -> bool {
        self.tracking@
    }

    /// The levels of the search, up to level `l`, are those of a search
    /// from the state it began with.
    closed spec fn trail_at(&self, l: int) -> bool {
        self.tracking@ ==> trail_valid(
            self.origin@,
            self.trail@,
            self.acts@,
            self.colss@,
            self.lsts@,
            self.items@,
            self.ms@,
            self.x@,
            l,
            self.problem.dance_view().net,
        )
    }

    /// A search of `problem` from its start. The search runs only on nodes
    /// that are well formed and have no level entered yet.
    #[verifier::spinoff_prover]
    #[verifier::rlimit(80)]
    pub fn new(problem: P) -> (r: Solver<P>)
        ensures
            r.inv(),
            r.state() == problem.dance_view(),
            r.depth() == 0,
            r.choices() == Seq::<Link>::empty(),
            r.visits() == Seq::<usize>::empty(),
            !r.pending(),
            !r.gave_up(),
            r.is_valid() == (problem.dance_view().wf() && (!problem.dance_view().net.multi
                || problem.dance_view().ft.len() == 0)),
            r.start() == problem.dance_view(),
            r.tracks() == (r.is_valid() && !problem.dance_view().net.multi && tracked_start(problem.dance_view())),
    {
        let links = problem.links();
        let valid = links.check() && (!links.multi || links.ft.len() == 0);
        let ghost v = problem.dance_view();
        let ghost ok = valid && !v.net.multi && tracked_start(v);
        let ghost w: (Set<int>, Seq<Seq<int>>, Seq<int>, Seq<int>) = choose|w: (Set<int>, Seq<Seq<int>>, Seq<int>, Seq<int>)|
            start_witness(v, w);
        let r = Solver {
            problem,
            x: Vec::new(),
            o: Vec::new(),
            profile: Vec::new(),
            l: 0,
            i: 0,
            restart: false,
            valid,
            gave_up: false,
            origin: Ghost(v),
            trail: Ghost(Seq::empty().push(v)),
            acts: Ghost(Seq::empty().push(w.0)),
            colss: Ghost(Seq::empty().push(w.1)),
            lsts: Ghost(Seq::empty().push((w.2, w.3))),
            items: Ghost(Seq::empty()),
            ms: Ghost(Seq::empty()),
            tracking: Ghost(ok),
            steps: Ghost(0),
        };
        proof {
            reveal(trail_valid);
            if ok {
                assert(start_witness(v, w));
                assert(consistent(r.trail@[0], r.acts@[0], r.colss@[0]));
                assert(lists_ok(r.trail@[0].net, r.acts@[0], r.lsts@[0].0, r.lsts@[0].1));
                assert(v.net.same_frame(v.net));
                assert(cover_log(v.net, r.acts@, r.x@, 0)) by {
                    reveal(cover_log);
                    assert(r.acts@[0] == w.0);
                }
                assert(trail_colors(r.trail@, r.acts@, r.x@, 0)) by {
                    reveal(trail_colors);
                }
            }
        }
        r
    }

    /// The problem.
    pub fn problem(&self) -> (r: &P)
        ensures
            r.dance_view() == self.state(),
    {
        &self.problem
    }

    /// The current level of the search.
    pub fn level(&self) -> (r: Count)
        ensures
            r == self.depth(),
    {
        self.l
    }

    /// Whether the search stands on a solution it reported, to go on from.
    pub fn restarting(&self) -> (r: bool)
        ensures
            r == self.pending(),
    {
        self.restart
    }

    /// Find the next solution: `true` when one is found (every primary
    /// item covered), `false` when the search is over, the levels undone
    /// and the update count negated. The search gives up, with `false`,
    /// after `2^64 - 1` steps. A search that began from a consistent state
    /// without multiplicities leaves, once over, the links, column lengths
    /// and colors it began with, and each solution it reports is an exact
    /// cover: the options chosen at its levels hold every primary item once,
    /// and two of them share a secondary item only with the same positive
    /// color on it (so, without colors, never). When a search stands on no
    /// reported solution and its primary list is empty, it reports one at
    /// once; it gives up only after its full step budget.
    pub fn next_solution<C: Choose<P>>(&mut self, chooser: &mut C) -> (r: bool)
        requires
            old(self).inv(),
        ensures
            final(self).inv(),
            final(self).is_valid() == old(self).is_valid(),
            !old(self).is_valid() ==> !r && final(self).state() == old(self).state(),
            old(self).is_valid() ==> final(self).state().net.same_frame(old(self).state().net),
            r ==> final(self).state().net.right[0] == 0,
            r ==> final(self).pending() && !final(self).gave_up(),
            old(self).is_valid() && !r ==> final(self).gave_up() || (final(self).depth() == 0
                && !final(self).pending()),
            final(self).start() == old(self).start(),
            final(self).tracks() == old(self).tracks(),
            final(self).tracks() && !r && !final(self).gave_up() ==> final(self).state().net
                == final(self).start().net,
            final(self).tracks() && r ==> exact_cover(
                final(self).start().net,
                final(self).choices().take(final(self).depth() as int),
            ),
            final(self).tracks() && r ==> colors_agree(
                final(self).start().net,
                final(self).choices().take(final(self).depth() as int),
            ),
            final(self).gave_up() ==> final(self).steps_taken() == u64::MAX,
            old(self).is_valid() && !old(self).pending() && old(self).state().net.right[0] == 0 ==> r
                && final(self).state().net == old(self).state().net && final(self).depth() == old(self).depth()
                && final(self).choices() == old(self).choices(),
    {
        if !self.valid {
            return false;
        }
        self.gave_up = false;
        self.steps = Ghost(0);
        let ghost s0 = self.problem.dance_view();
        let mut l = self.l;
        let mut i = self.i;
        if self.problem.updates() < 0 {
            self.problem.set_updates(0);
        }
        let mut budget: u64 = u64::MAX;
        loop
            invariant
                self.valid,
                !self.gave_up,
                old(self).valid,
                s0 == old(self).problem.dance_view(),
                self.problem.dance_view().wf(),
                self.problem.dance_view().net.same_frame(s0.net),
                l <= self.x@.len(),
                self.profile@.len() == self.x@.len(),
                self.problem.dance_view().net.multi ==> self.problem.dance_view().ft.len()
                    == self.x@.len(),
                forall|k: int|
                    0 <= k < l ==> self.problem.dance_view().net.is_col(#[trigger] self.x@[k] as int),
                self.origin == old(self).origin,
                self.tracking == old(self).tracking,
                self.trail_at(l as int),
                self.steps@ == u64::MAX - budget,
                budget == u64::MAX ==> self.restart == old(self).restart && self.problem.dance_view().net
                    == old(self).problem.dance_view().net && l == old(self).l && self.x@ == old(self).x@,
                old(self).valid && !old(self).restart && old(self).problem.dance_view().net.right[0] == 0
                    ==> budget == u64::MAX,
            decreases budget,
        {
            if budget == 0 {
                self.l = l;
                self.i = i;
                self.gave_up = true;
                return false;
            }
            budget -= 1;
            self.steps = Ghost(self.steps@ + 1);
            let mut forward = false;
            if self.restart {
                self.restart = false;
            } else if self.problem.links().right[0] == 0 {
                proof {
                    if self.tracking@ {
                        lemma_trail_solution(
                            self.origin@,
                            self.trail@,
                            self.acts@,
                            self.colss@,
                            self.lsts@,
                            self.items@,
                            self.ms@,
                            self.x@,
                            l as int,
                            self.problem.dance_view().net,
                        );
                        lemma_trail_agree(
                            self.origin@,
                            self.trail@,
                            self.acts@,
                            self.colss@,
                            self.lsts@,
                            self.items@,
                            self.ms@,
                            self.x@,
                            l as int,
                            self.problem.dance_view().net,
                        );
                    }
                }
                self.l = l;
                self.i = i;
                self.restart = true;
                return true;
            } else {
                if self.x.len() == l {
                    let ghost x0 = self.x@;
                    self.x.push(0);
                    self.profile.push(0);
                    proof {
                        if self.tracking@ {
                            lemma_trail_x(
                                self.origin@,
                                self.trail@,
                                self.acts@,
                                self.colss@,
                                self.lsts@,
                                self.items@,
                                self.ms@,
                                x0,
                                self.x@,
                                l as int,
                                self.problem.dance_view().net,
                            );
                        }
                    }
                    let ghost before = self.problem.dance_view();
                    proof {
                        if self.tracking@ {
                            lemma_trail_here(
                                self.origin@,
                                self.trail@,
                                self.acts@,
                                self.colss@,
                                self.lsts@,
                                self.items@,
                                self.ms@,
                                self.x@,
                                l as int,
                                self.problem.dance_view().net,
                            );
                            assert(self.trail@[l as int].net.same_frame(self.origin@.net));
                            assert(!before.net.multi);
                        }
                    }
                    self.problem.enter_level(i, l, 0);
                    proof {
                        if self.tracking@ {
                            assert(self.problem.dance_view() == before);
                        }
                    }
                }
                let visits = self.profile[l].wrapping_add(1);
                self.profile.set(l, visits);
                i = chooser.choose_next(&self.problem);
                let len = self.problem.links().len;
                let xlen = self.x.len();
                if 1 <= i && i <= len && self.problem.branch_degree(i) != 0 {
                    let ghost s1 = self.problem.dance_view();
                    proof {
                        lemma_col_facts(s1.net, i as int);
                        if self.tracking@ {
                            lemma_trail_choice(
                                self.origin@,
                                self.trail@,
                                self.acts@,
                                self.colss@,
                                self.lsts@,
                                self.items@,
                                self.ms@,
                                self.x@,
                                l as int,
                                s1,
                                i as int,
                            );
                        }
                    }
                    let xl = self.problem.links().down[i];
                    proof {
                        assert(xl == s1.net.down[i as int]);
                        if self.tracking@ {
                            lemma_trail_here(
                                self.origin@,
                                self.trail@,
                                self.acts@,
                                self.colss@,
                                self.lsts@,
                                self.items@,
                                self.ms@,
                                self.x@,
                                l as int,
                                self.problem.dance_view().net,
                            );
                            assert(self.trail@[l as int].net.same_frame(self.origin@.net));
                            assert(!s1.net.multi);
                        }
                    }
                    let ghost x0 = self.x@;
                    self.x.set(l, xl);
                    proof {
                        if self.tracking@ {
                            lemma_trail_x(
                                self.origin@,
                                self.trail@,
                                self.acts@,
                                self.colss@,
                                self.lsts@,
                                self.items@,
                                self.ms@,
                                x0,
                                self.x@,
                                l as int,
                                s1.net,
                            );
                        }
                    }
                    self.problem.prepare_to_branch(i, l, xl);
                    let ghost s2 = self.problem.dance_view();
                    proof {
                        lemma_frame_cols(s1.net, s2.net, xl as int);
                    }
                    if self.problem.try_item(i, l, xl) {
                        assert(l < xlen);
                        proof {
                            if self.tracking@ {
                                let tr = self.trail@;
                                let ll = l as int;
                                assert(!s2.net.multi);
                                assert(xl != i);
                                lemma_trail_here(
                                    self.origin@,
                                    self.trail@,
                                    self.acts@,
                                    self.colss@,
                                    self.lsts@,
                                    self.items@,
                                    self.ms@,
                                    self.x@,
                                    ll,
                                    s1.net,
                                );
                                assert(consistent(tr[ll], self.acts@[ll], self.colss@[ll]));
                                assert(self.acts@[ll].contains(i as int));
                                assert(column(tr[ll].net, i as int, self.colss@[ll][i as int]));
                                assert(self.colss@[ll][i as int].len() > 0);
                                assert(self.x@[ll] == self.colss@[ll][i as int][0]);
                                assert(self.problem.dance_view() == s1.cover(i as int).commit_option(xl as int));
                                let (t2, a2, c2, ls2) = lemma_trail_forward(
                                    self.origin@,
                                    self.trail@,
                                    self.acts@,
                                    self.colss@,
                                    self.lsts@,
                                    self.items@,
                                    self.ms@,
                                    self.x@,
                                    ll,
                                    s1.net,
                                    s1,
                                    i as int,
                                );
                                self.trail = Ghost(t2);
                                self.acts = Ghost(a2);
                                self.colss = Ghost(c2);
                                self.lsts = Ghost(ls2);
                                self.items = Ghost(self.items@.push(i as int));
                                self.ms = Ghost(self.ms@.push(0));
                            }
                        }
                        l += 1;
                        forward = true;
                    } else {
                        let ghost s3 = self.problem.dance_view();
                        self.problem.restore_item(i, l, xl);
                        proof {
                            if self.tracking@ {
                                assert(!s2.net.multi);
                                assert(xl == i);
                                assert(s3 == s1.cover(i as int));
                                assert(self.problem.dance_view() == s1.cover(i as int).uncover(i as int));
                            }
                            lemma_frame_trans(self.problem.dance_view().net, s3.net, s2.net);
                            if self.tracking@ {
                                lemma_trail_empty(
                                    self.origin@,
                                    self.trail@,
                                    self.acts@,
                                    self.colss@,
                                    self.lsts@,
                                    self.items@,
                                    self.ms@,
                                    self.x@,
                                    l as int,
                                    s1.net,
                                    s1,
                                    i as int,
                                );
                            }
                        }
                    }
                    proof {
                        let t = self.problem.dance_view().net;
                        lemma_frame_trans(t, s2.net, s1.net);
                        lemma_frame_trans(t, s1.net, s0.net);
                        assert forall|k: int| 0 <= k < l implies t.is_col(
                            #[trigger] self.x@[k] as int,
                        ) by {
                            lemma_frame_cols(s1.net, t, self.x@[k] as int);
                        }
                    }
                }
            }
            if !forward {
                loop
                    invariant
                        self.valid,
                        !self.gave_up,
                        !self.restart,
                        old(self).valid,
                        s0 == old(self).problem.dance_view(),
                        self.problem.dance_view().wf(),
                        self.problem.dance_view().net.same_frame(s0.net),
                        l <= self.x@.len(),
                        self.profile@.len() == self.x@.len(),
                        self.problem.dance_view().net.multi ==> self.problem.dance_view().ft.len()
                            == self.x@.len(),
                        forall|k: int|
                            0 <= k < l ==> self.problem.dance_view().net.is_col(
                                #[trigger] self.x@[k] as int,
                            ),
                        self.origin == old(self).origin,
                        self.tracking == old(self).tracking,
                        self.trail_at(l as int),
                        self.steps@ == u64::MAX - budget,
                        !(old(self).valid && !old(self).restart && old(self).problem.dance_view().net.right[0] == 0),
                    ensures
                        0 < l <= self.x@.len(),
                        self.valid,
                        !self.gave_up,
                        old(self).valid,
                        s0 == old(self).problem.dance_view(),
                        self.problem.dance_view().wf(),
                        self.problem.dance_view().net.same_frame(s0.net),
                        self.profile@.len() == self.x@.len(),
                        self.problem.dance_view().net.multi ==> self.problem.dance_view().ft.len()
                            == self.x@.len(),
                        forall|k: int|
                            0 <= k < l ==> self.problem.dance_view().net.is_col(
                                #[trigger] self.x@[k] as int,
                            ),
                        self.origin == old(self).origin,
                        self.tracking == old(self).tracking,
                        self.trail_at(l as int),
                        self.steps@ == u64::MAX - budget,
                        !(old(self).valid && !old(self).restart && old(self).problem.dance_view().net.right[0] == 0),
                    decreases l,
                {
                    if l == 0 {
                        self.l = l;
                        let u = self.problem.updates();
                        let neg = if u == isize::MIN {
                            u
                        } else {
                            -u
                        };
                        let ghost before = self.problem.dance_view();
                        self.problem.set_updates(neg);
                        proof {
                            assert(self.problem.dance_view().net == before.net);
                            if self.tracking@ {
                                lemma_trail_here(
                                    self.origin@,
                                    self.trail@,
                                    self.acts@,
                                    self.colss@,
                                    self.lsts@,
                                    self.items@,
                                    self.ms@,
                                    self.x@,
                                    0,
                                    self.problem.dance_view().net,
                                );
                            }
                        }
                        return false;
                    }
                    l -= 1;
                    let ghost s1 = self.problem.dance_view();
                    let xl = self.x[l];
                    proof {
                        assert(s1.net.is_col(self.x@[l as int] as int));
                        lemma_col_facts(s1.net, xl as int);
                    }
                    let ghost back = if self.tracking@ {
                        lemma_trail_back(
                            self.origin@,
                            self.trail@,
                            self.acts@,
                            self.colss@,
                            self.lsts@,
                            self.items@,
                            self.ms@,
                            self.x@,
                            l as int,
                            s1.net,
                            s1,
                        )
                    } else {
                        (self.trail@, self.acts@, self.colss@, self.lsts@)
                    };
                    i = self.problem.links().hdr[xl] as Link;
                    let mut xv = xl;
                    let ghost x0 = self.x@;
                    proof {
                        if self.tracking@ {
                            lemma_trail_level(
                                self.origin@,
                                self.trail@,
                                self.acts@,
                                self.colss@,
                                self.lsts@,
                                self.items@,
                                self.ms@,
                                self.x@,
                                l as int,
                                s1.net,
                            );
                            assert(self.trail@[l + 1].net.same_frame(self.origin@.net));
                            assert(!s1.net.multi);
                            assert(i == self.items@[l as int]);
                            assert(xl > s1.net.len);
                        }
                    }
                    let again = self.problem.try_again(i, l, &mut xv);
                    proof {
                        if self.tracking@ {
                            let t = s1.uncommit_option(xl as int);
                            let nx = t.net.down[xl as int] as int;
                            assert(again == (nx != i));
                            assert(xv == nx);
                            assert(again ==> self.problem.dance_view() == t.commit_option(nx));
                            assert(!again ==> self.problem.dance_view() == t.uncover(i as int));
                        }
                    }
                    self.x.set(l, xv);
                    proof {
                        lemma_frame_trans(self.problem.dance_view().net, s1.net, s0.net);
                        assert forall|k: int| 0 <= k < l implies self.problem.dance_view().net.is_col(
                            #[trigger] self.x@[k] as int,
                        ) by {
                            lemma_frame_cols(s1.net, self.problem.dance_view().net, self.x@[k] as int);
                        }
                    }
                    if again {
                        proof {
                            if self.tracking@ {
                                self.trail = Ghost(back.0);
                                self.acts = Ghost(back.1);
                                self.colss = Ghost(back.2);
                                self.lsts = Ghost(back.3);
                                self.ms = Ghost(self.ms@.update(l as int, self.ms@[l as int] + 1));
                            }
                        }
                        l += 1;
                        break;
                    } else {
                        proof {
                            if self.tracking@ {
                                let ll = l as int;
                                lemma_trail_x(
                                    self.origin@,
                                    self.trail@.take(ll + 1),
                                    self.acts@.take(ll + 1),
                                    self.colss@.take(ll + 1),
                                    self.lsts@.take(ll + 1),
                                    self.items@.take(ll),
                                    self.ms@.take(ll),
                                    x0,
                                    self.x@,
                                    ll,
                                    self.problem.dance_view().net,
                                );
                                self.trail = Ghost(self.trail@.take(ll + 1));
                                self.acts = Ghost(self.acts@.take(ll + 1));
                                self.colss = Ghost(self.colss@.take(ll + 1));
                                self.lsts = Ghost(self.lsts@.take(ll + 1));
                                self.items = Ghost(self.items@.take(ll));
                                self.ms = Ghost(self.ms@.take(ll));
                            }
                        }
                    }
                }
            }
        }
    }

    /// The options of the solution found last, by number from `0`, in the
    /// order of the levels.
    pub fn get_solution(&mut self) -> (r: &[isize])
        requires
            old(self).inv(),
        ensures
            final(self).inv(),
            final(self).state() == old(self).state(),
            final(self).depth() == old(self).depth(),
            final(self).choices() == old(self).choices(),
            old(self).is_valid() ==> r@ == solution_of(
                old(self).state().net,
                old(self).choices().take(old(self).depth() as int),
            ),
            !old(self).is_valid() ==> r@ == Seq::<isize>::empty(),
            final(self).is_valid() == old(self).is_valid(),
            final(self).pending() == old(self).pending(),
            final(self).gave_up() == old(self).gave_up(),
            final(self).visits() == old(self).visits(),
            final(self).start() == old(self).start(),
            final(self).tracks() == old(self).tracks(),
            final(self).steps_taken() == old(self).steps_taken(),
    {
        self.o.clear();
        if !self.valid {
            return self.o.as_slice();
        }
        let ghost v = self.problem.dance_view();
        let links = self.problem.links();
        let n = links.len;
        let mut k: usize = 0;
        while k < self.l
            invariant
                self.valid,
                self.problem == old(self).problem,
                self.x == old(self).x,
                self.l == old(self).l,
                self.profile == old(self).profile,
                self.valid == old(self).valid,
                self.origin == old(self).origin,
                self.trail == old(self).trail,
                self.acts == old(self).acts,
                self.colss == old(self).colss,
                self.lsts == old(self).lsts,
                self.items == old(self).items,
                self.ms == old(self).ms,
                self.tracking == old(self).tracking,
                self.steps == old(self).steps,
                self.gave_up == old(self).gave_up,
                self.restart == old(self).restart,
                self.i == old(self).i,
                v == self.problem.dance_view(),
                links@ == v,
                v.wf(),
                n == v.net.len,
                k <= self.l <= self.x@.len(),
                forall|j: int| 0 <= j < self.l ==> v.net.is_col(#[trigger] self.x@[j] as int),
                self.o@ == solution_of(v.net, self.x@.take(k as int)),
            decreases self.l - k,
        {
            let mut r = self.x[k];
            proof {
                assert(self.x@.take(k + 1).drop_last() =~= self.x@.take(k as int));
                assert(v.net.is_col(self.x@[k as int] as int));
                lemma_col_facts(v.net, r as int);
                lemma_end_spacers(v.net);
            }
            if r > n {
                let ghost start = r;
                proof {
                    crate::links::lemma_spacer_facts(v.net, (v.net.n() - 1) as int);
                }
                while links.hdr[r] >= 0
                    invariant
                        links@ == v,
                        v.wf(),
                        n == v.net.len,
                        n + 2 <= start <= r < v.net.n(),
                        v.net.hdr[v.net.n() - 1] < 0,
                        spacer_from(v.net, start as int, v.net.n() as nat) == spacer_from(
                            v.net,
                            r as int,
                            (v.net.n() - (r - start)) as nat,
                        ),
                    decreases v.net.n() - r,
                {
                    r += 1;
                }
                self.o.push((-1isize).wrapping_sub(links.hdr[r]));
            }
            k += 1;
        }
        proof {
            assert(self.x@.take(self.l as int) == self.x@.take(k as int));
        }
        self.o.as_slice()
    }

    /// The number of updates of the links made by the search.
    pub fn get_updates(&self) -> (r: isize)
        ensures
            r == self.state().updates,
    {
        self.problem.updates()
    }

    /// The number of times each level was entered.
    pub fn get_profile(&self) -> (r: &[usize])
        ensures
            r@ == self.visits(),
    {
        self.profile.as_slice()
    }
}

} // verus!
