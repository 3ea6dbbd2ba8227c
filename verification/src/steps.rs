//! Committing entries one after another from a consistent state, with or
//! without colors, and undoing the commits in the reverse order: each
//! level of the search, which covers an item and commits the other entries
//! of an option of it, undoes itself and leaves a consistent state.

use vstd::prelude::*;

use crate::covering::{law_uncommit_commit, law_uncommit_commit_colored, lemma_unhide_net};

use crate::covering::{column, law_uncover_cover, lemma_same_option_trans};
use crate::hiding::{lemma_option_span, lemma_span_frame, same_option, span};
use crate::levels::{
    back_pos, consistent, law_cover_consistent, lemma_consistent_cover_ok, lemma_uncover_net, live, opt_pos,
    whole,
};
use crate::links::{lemma_col_facts, lemma_frame_trans, LinksV, Net};
use crate::lists::{colors_secondary, lemma_colors_keep, lemma_lists_unlink, lists_ok};
use crate::purity::law_purify_consistent;
use crate::Data;

verus! {

/// The state after committing the entries `qs`, first to last, each for
/// its item.
pub open spec fn commit_all(s: LinksV, qs: Seq<int>) -> LinksV
    decreases qs.len(),
{
    if qs.len() == 0 {
        s
    } else {
        commit_all(s.commit(qs[0], s.net.hdr[qs[0]] as int), qs.drop_first())
    }
}

/// The state after uncommitting the entries `qs`, last to first.
pub open spec fn uncommit_all(t: LinksV, qs: Seq<int>) -> LinksV
    decreases qs.len(),
{
    if qs.len() == 0 {
        t
    } else {
        let u = uncommit_all(t, qs.drop_first());
        u.uncommit(qs[0], u.net.hdr[qs[0]] as int)
    }
}

/// The entries `qs` can be committed one after another from a consistent
/// state: each live one is an entry of an item still to cover that has
/// left the column of its item, no two live ones are entries of the same
/// item, and each purified one is an entry of an item no longer to cover.
pub open spec fn seq_ok(s: LinksV, act: Set<int>, cols: Seq<Seq<int>>, qs: Seq<int>) -> bool {
    &&& forall|k: int| 0 <= k < qs.len() ==> s.net.is_opt(#[trigger] qs[k])
    &&& forall|k: int|
        0 <= k < qs.len() && live(s.net, #[trigger] qs[k]) ==> act.contains(s.net.hdr[qs[k]] as int)
            && !cols[s.net.hdr[qs[k]] as int].contains(qs[k])
    &&& forall|k: int|
        0 <= k < qs.len() && !live(s.net, #[trigger] qs[k]) ==> !act.contains(s.net.hdr[qs[k]] as int)
    &&& forall|a: int, b: int|
        0 <= a < b < qs.len() && live(s.net, qs[a]) && live(s.net, qs[b]) ==> #[trigger] s.net.hdr[qs[a]]
            != #[trigger] s.net.hdr[qs[b]]
}

/// Unpurifying walks read nothing but the node arrays.
proof fn lemma_unpurify_walk_net(t1: LinksV, t2: LinksV, c: Data, i: int, q: int, fuel: nat)
    requires
        t1.net == t2.net,
    ensures
        t1.unpurify_walk(c, i, q, fuel).net == t2.unpurify_walk(c, i, q, fuel).net,
    decreases fuel,
{
    if !(fuel == 0 || q == i || !t1.net.is_opt(q)) {
        let u1 = if t1.net.color[q] < 0 {
            t1.set_color(q, c)
        } else {
            t1.unhide_with(q, true)
        };
        let u2 = if t2.net.color[q] < 0 {
            t2.set_color(q, c)
        } else {
            t2.unhide_with(q, true)
        };
        if t1.net.color[q] >= 0 {
            lemma_unhide_net(t1, t2, q, q - 1, t1.net.n(), true);
        }
        lemma_unpurify_walk_net(u1, u2, c, i, u1.net.up[q] as int, (fuel - 1) as nat);
    }
}

/// Uncommitting reads nothing but the node arrays.
pub proof fn lemma_uncommit_net(t1: LinksV, t2: LinksV, q: int, j: int)
    requires
        t1.net == t2.net,
    ensures
        t1.uncommit(q, j).net == t2.uncommit(q, j).net,
{
    crate::levels::lemma_uncover_net(t1, t2, j);
    if t1.net.colored {
        let u1 = if t1.net.color[q] == 0 {
            t1.uncover(j)
        } else {
            t1
        };
        let u2 = if t2.net.color[q] == 0 {
            t2.uncover(j)
        } else {
            t2
        };
        if u1.net.color[q] > 0 {
            let i = u1.net.hdr[q] as int;
            lemma_unpurify_walk_net(u1, u2, u1.net.color[q], i, u1.net.up[i] as int, u1.net.n() as nat);
        }
    }
}

/// What committing the first of a run of entries `qs` does to the item
/// links and colors: covering its item takes the item out of its list,
/// purifying changes colors to `-1` only on entries of its item, and the
/// colors of the other entries of the run stay.
#[verifier::opaque]
pub open spec fn commit_effect(s: LinksV, qs: Seq<int>) -> bool {
    let q = qs[0];
    let j = s.net.hdr[q] as int;
    let s1 = s.commit(q, j);
    let covered = live(s.net, q) && (!s.net.colored || s.net.color[q] == 0);
    &&& s1.net.left == (if covered {
        s.net.unlink_item(j).left
    } else {
        s.net.left
    })
    &&& s1.net.right == (if covered {
        s.net.unlink_item(j).right
    } else {
        s.net.right
    })
    &&& forall|x: int|
        0 <= x < s.net.color.len() && #[trigger] s1.net.color[x] != s.net.color[x] ==> s1.net.color[x]
            == -1 && s.net.hdr[x] == j && s.net.is_opt(x) && live(s.net, q) && s.net.colored
            && s.net.color[q] > 0 && s.net.color[x] == s.net.color[q]
    &&& forall|k: int|
        0 <= k < qs.drop_first().len() ==> s1.net.color[#[trigger] qs.drop_first()[k]]
            == s.net.color[qs.drop_first()[k]]
}

/// Committing the first of a run of entries that can be committed gives a
/// consistent state from which the others can still be committed, and
/// uncommitting it gives back the same links, column lengths and colors.
#[verifier::spinoff_prover]
#[verifier::rlimit(40)]
pub proof fn lemma_commit_first(s: LinksV, act: Set<int>, cols: Seq<Seq<int>>, qs: Seq<int>) -> (r: (
    Set<int>,
    Seq<Seq<int>>,
))
    requires
        consistent(s, act, cols),
        seq_ok(s, act, cols, qs),
        qs.len() > 0,
    ensures
        consistent(s.commit(qs[0], s.net.hdr[qs[0]] as int), r.0, r.1),
        seq_ok(s.commit(qs[0], s.net.hdr[qs[0]] as int), r.0, r.1, qs.drop_first()),
        s.commit(qs[0], s.net.hdr[qs[0]] as int).uncommit(qs[0], s.net.hdr[qs[0]] as int).net == s.net,
        s.commit(qs[0], s.net.hdr[qs[0]] as int).net.same_frame(s.net),
        r.0.subset_of(act),
        r.0 == (if live(s.net, qs[0]) {
            act.remove(s.net.hdr[qs[0]] as int)
        } else {
            act
        }),
        commit_effect(s, qs),
{
    let q = qs[0];
    assert(s.net.is_opt(qs[0]));
    let j = s.net.hdr[q] as int;
    let s1 = s.commit(q, j);
    let colored = s.net.colored;
    let lq = live(s.net, q);
    assert forall|m: int| act.contains(j) && 0 <= m < cols[j].len() implies s.net.color[#[trigger] cols[j][m]] >= 0
        || !colored by {
        assert(live(s.net, cols[j][m]));
    }
    let (act2, r): (Set<int>, Seq<Seq<int>>) = if !lq {
        assert(colored && s.net.color[q] < 0);
        assert(s1 == s);
        assert(s.net.same_frame(s.net));
        (act, cols)
    } else if !colored || s.net.color[q] == 0 {
        assert(act.contains(j) && !cols[j].contains(q));
        let r = law_cover_consistent(s, act, cols, j);
        assert(s1 == s.cover(j));
        lemma_consistent_cover_ok(s, act, cols, j);
        if !colored {
            law_uncommit_commit(s, q, j, cols[j]);
        } else {
            law_uncommit_commit_colored(s, q, cols[j]);
        }
        (act.remove(j), r)
    } else {
        assert(act.contains(j) && !cols[j].contains(q));
        let r = law_purify_consistent(s, act, cols, q);
        assert(s1 == s.purify(q));
        lemma_consistent_cover_ok(s, act, cols, j);
        law_uncommit_commit_colored(s, q, cols[j]);
        (act.remove(j), r)
    };
    let rest = qs.drop_first();
    assert forall|k: int| 0 <= k < rest.len() implies s1.net.color[#[trigger] rest[k]] == s.net.color[rest[k]] by {
        let y = rest[k];
        assert(y == qs[k + 1]);
        assert(s.net.is_opt(qs[k + 1]));
        crate::links::lemma_col_facts(s.net, y);
        if s1.net.color[y] != s.net.color[y] {
            assert(lq && colored && s.net.color[q] > 0);
            assert(s.net.hdr[y] == j);
            if live(s.net, qs[k + 1]) {
                assert(live(s.net, qs[0]) && live(s.net, qs[k + 1]));
                assert(s.net.hdr[qs[0]] != s.net.hdr[qs[k + 1]]);
            } else {
                assert(!act.contains(s.net.hdr[qs[k + 1]] as int));
            }
        }
    }
    assert forall|k: int| 0 <= k < rest.len() implies s1.net.is_opt(#[trigger] rest[k]) && s1.net.hdr[rest[k]]
        == s.net.hdr[rest[k]] && live(s1.net, rest[k]) == live(s.net, rest[k]) by {
        assert(rest[k] == qs[k + 1]);
        assert(s.net.is_opt(qs[k + 1]));
        assert(s1.net.color[rest[k]] == s.net.color[rest[k]]);
    }
    assert forall|k: int| 0 <= k < rest.len() && live(s1.net, #[trigger] rest[k]) implies act2.contains(
        s1.net.hdr[rest[k]] as int,
    ) && !r[s1.net.hdr[rest[k]] as int].contains(rest[k]) by {
        assert(rest[k] == qs[k + 1]);
        assert(live(s.net, qs[k + 1]));
        if lq {
            assert(live(s.net, qs[0]) && live(s.net, qs[k + 1]));
            assert(s.net.hdr[qs[0]] != s.net.hdr[qs[k + 1]]);
        }
    }
    assert forall|k: int| 0 <= k < rest.len() && !live(s1.net, #[trigger] rest[k]) implies !act2.contains(
        s1.net.hdr[rest[k]] as int,
    ) by {
        assert(rest[k] == qs[k + 1]);
        assert(!live(s.net, qs[k + 1]));
    }
    assert forall|a: int, b: int| 0 <= a < b < rest.len() && live(s1.net, rest[a]) && live(s1.net, rest[b]) implies #[trigger] s1.net.hdr[rest[a]]
        != #[trigger] s1.net.hdr[rest[b]] by {
        assert(rest[a] == qs[a + 1] && rest[b] == qs[b + 1]);
        assert(live(s.net, qs[a + 1]) && live(s.net, qs[b + 1]));
    }
    reveal(commit_effect);
    (act2, r)
}

/// Committing one more entry after a run of entries.
pub proof fn lemma_commit_all_push(s: LinksV, qs: Seq<int>, q: int)
    ensures
        commit_all(s, qs.push(q)) == commit_all(s, qs).commit(q, commit_all(s, qs).net.hdr[q] as int),
    decreases qs.len(),
{
    if qs.len() == 0 {
        let one = qs.push(q);
        assert(one.len() == 1 && one[0] == q);
        assert(one.drop_first() =~= Seq::<int>::empty());
        let t = s.commit(q, s.net.hdr[q] as int);
        assert(commit_all(t, Seq::<int>::empty()) == t);
    } else {
        assert(qs.push(q)[0] == qs[0]);
        assert(qs.push(q).drop_first() =~= qs.drop_first().push(q));
        lemma_commit_all_push(s.commit(qs[0], s.net.hdr[qs[0]] as int), qs.drop_first(), q);
    }
}

/// Uncommitting undoes committing at every depth: from a consistent
/// state, committing entries that can be committed one after another and
/// then uncommitting them in the reverse order gives back the same links,
/// column lengths and colors.
pub proof fn law_uncommit_all_commit_all(s: LinksV, act: Set<int>, cols: Seq<Seq<int>>, qs: Seq<int>)
    requires
        consistent(s, act, cols),
        seq_ok(s, act, cols, qs),
    ensures
        uncommit_all(commit_all(s, qs), qs).net == s.net,
    decreases qs.len(),
{
    if qs.len() > 0 {
        let q = qs[0];
        let j = s.net.hdr[q] as int;
        let (act1, r1) = lemma_commit_first(s, act, cols, qs);
        let s1 = s.commit(q, j);
        let rest = qs.drop_first();
        law_uncommit_all_commit_all(s1, act1, r1, rest);
        let x = commit_all(s1, rest);
        assert(commit_all(s, qs) == x);
        let y = uncommit_all(x, rest);
        assert(y.net == s1.net);
        assert(s.net.is_opt(qs[0]));
        assert(y.net.hdr[q] == s.net.hdr[q]);
        lemma_uncommit_net(y, s1, q, j);
    }
}

/// After committing the first `k` of a run of entries that can be
/// committed, the state is consistent and the others can still be
/// committed.
pub proof fn lemma_commit_prefix(s: LinksV, act: Set<int>, cols: Seq<Seq<int>>, qs: Seq<int>, k: int) -> (r: (
    Set<int>,
    Seq<Seq<int>>,
))
    requires
        consistent(s, act, cols),
        seq_ok(s, act, cols, qs),
        0 <= k <= qs.len(),
    ensures
        consistent(commit_all(s, qs.take(k)), r.0, r.1),
        seq_ok(commit_all(s, qs.take(k)), r.0, r.1, qs.skip(k)),
        commit_all(s, qs.take(k)).net.same_frame(s.net),
        r.0.subset_of(act),
    decreases k,
{
    if k == 0 {
        assert(qs.take(0) =~= Seq::<int>::empty());
        assert(qs.skip(0) =~= qs);
        assert(s.net.same_frame(s.net));
        (act, cols)
    } else {
        let (a0, r0) = lemma_commit_prefix(s, act, cols, qs, k - 1);
        let w = commit_all(s, qs.take(k - 1));
        let rest = qs.skip(k - 1);
        assert(rest[0] == qs[k - 1]);
        let (a1, r1) = lemma_commit_first(w, a0, r0, rest);
        lemma_commit_all_push(s, qs.take(k - 1), qs[k - 1]);
        assert(qs.take(k - 1).push(qs[k - 1]) =~= qs.take(k));
        assert(rest.drop_first() =~= qs.skip(k));
        lemma_frame_trans(commit_all(s, qs.take(k)).net, w.net, s.net);
        (a1, r1)
    }
}

/// The other entries of the option `f..=l` of `x`, in the order met
/// walking around it from the entry after `x`.
pub open spec fn opt_entries(x: int, f: int, l: int) -> Seq<int> {
    Seq::new((l - f) as nat, |k: int| opt_pos(x, f, l, k))
}

/// What the walks around the option `f..=l` of `x` need: a consistent
/// state from which the other entries of the option can be committed.
pub open spec fn walks_ok(s: LinksV, act: Set<int>, cols: Seq<Seq<int>>, x: int, f: int, l: int) -> bool {
    &&& consistent(s, act, cols)
    &&& seq_ok(s, act, cols, opt_entries(x, f, l))
    &&& span(s.net, f, l)
    &&& f <= x <= l
}

/// Committing walks around the option of `x`, committing each entry met.
#[verifier::spinoff_prover]
#[verifier::rlimit(40)]
proof fn lemma_commit_walk(s: LinksV, act: Set<int>, cols: Seq<Seq<int>>, x: int, f: int, l: int, k: int)
    requires
        walks_ok(s, act, cols, x, f, l),
        0 <= k <= l - f,
    ensures
        commit_all(s, opt_entries(x, f, l).take(k)).commit_from(x, opt_pos(x, f, l, k), s.net.n()) == commit_all(
            s,
            opt_entries(x, f, l),
        ),
    decreases l - f - k,
{
    let qs = opt_entries(x, f, l);
    let n = s.net.n();
    let w = commit_all(s, qs.take(k));
    lemma_commit_prefix(s, act, cols, qs, k);
    let q = opt_pos(x, f, l, k);
    if k == l - f {
        assert(q == x);
        assert(qs.take(k) =~= qs);
    } else {
        assert(f <= q <= l && q != x);
        assert(qs[k] == q);
        assert(w.net.hdr[q] == s.net.hdr[q]);
        assert(s.net.hdr[q] > 0);
        lemma_commit_all_push(s, qs.take(k), q);
        assert(qs.take(k).push(q) =~= qs.take(k + 1));
        let w1 = commit_all(s, qs.take(k + 1));
        assert(w.commit(q, w.net.hdr[q] as int) == w1);
        assert(w.commit_from(x, q, n) == w1.commit_from(x, q + 1, n));
        lemma_commit_prefix(s, act, cols, qs, k + 1);
        if k + 1 == l - x {
            assert(q + 1 == l + 1);
            assert(s.net.is_spacer(l + 1));
            assert(w1.net.is_spacer(l + 1));
            assert(w1.net.up[l + 1] == s.net.up[l + 1]);
            assert(w1.commit_from(x, l + 1, n) == w1.commit_from(x, f, n));
        }
        lemma_commit_walk(s, act, cols, x, f, l, k + 1);
    }
}

/// One step back of the walk of uncommitting: uncommitting the `k`-th
/// entry met gives back the links from before committing it.
#[verifier::spinoff_prover]
#[verifier::rlimit(40)]
proof fn lemma_uncommit_step(s: LinksV, act: Set<int>, cols: Seq<Seq<int>>, x: int, f: int, l: int, k: int, u: LinksV)
    requires
        walks_ok(s, act, cols, x, f, l),
        0 < k <= l - f,
        u.net == commit_all(s, opt_entries(x, f, l).take(k)).net,
    ensures
        ({
            let q = opt_pos(x, f, l, k - 1);
            let t = u.uncommit(q, u.net.hdr[q] as int);
            &&& u.uncommit_from(x, q, s.net.n()) == t.uncommit_from(x, q - 1, s.net.n())
            &&& t.net == commit_all(s, opt_entries(x, f, l).take(k - 1)).net
            &&& t.net.same_frame(s.net)
        }),
{
    let qs = opt_entries(x, f, l);
    let n = s.net.n();
    let q = opt_pos(x, f, l, k - 1);
    assert(qs[k - 1] == q);
    let (a0, r0) = lemma_commit_prefix(s, act, cols, qs, k - 1);
    lemma_commit_prefix(s, act, cols, qs, k);
    let w0 = commit_all(s, qs.take(k - 1));
    let rest = qs.skip(k - 1);
    assert(rest[0] == q);
    lemma_commit_first(w0, a0, r0, rest);
    lemma_commit_all_push(s, qs.take(k - 1), q);
    assert(qs.take(k - 1).push(q) =~= qs.take(k));
    let wk = commit_all(s, qs.take(k));
    assert(f <= q <= l && q != x);
    assert(s.net.hdr[q] > 0);
    assert(w0.net.hdr[q] == s.net.hdr[q]);
    assert(wk.net.hdr[q] == s.net.hdr[q]);
    let h = w0.net.hdr[q] as int;
    assert(wk == w0.commit(q, h));
    let t = u.uncommit(q, u.net.hdr[q] as int);
    lemma_uncommit_net(u, wk, q, h);
    assert(t.net == w0.net);
    assert(q > 0);
}

/// Uncommitting walks back around the option of `x`, uncommitting the
/// entries in the reverse order, and gives back the links from before
/// committing.
proof fn lemma_uncommit_walk(s: LinksV, act: Set<int>, cols: Seq<Seq<int>>, x: int, f: int, l: int, k: int, u: LinksV)
    requires
        walks_ok(s, act, cols, x, f, l),
        0 <= k <= l - f,
        u.net == commit_all(s, opt_entries(x, f, l).take(k)).net,
    ensures
        u.uncommit_from(x, back_pos(x, f, l, k), s.net.n()).net == s.net,
    decreases k,
{
    let qs = opt_entries(x, f, l);
    let n = s.net.n();
    if k == 0 {
        assert(qs.take(0) =~= Seq::<int>::empty());
    } else {
        let q = opt_pos(x, f, l, k - 1);
        lemma_uncommit_step(s, act, cols, x, f, l, k, u);
        let t = u.uncommit(q, u.net.hdr[q] as int);
        if k - 1 == l - x {
            assert(q == f);
            assert(s.net.is_spacer(f - 1));
            assert(t.net.is_spacer(f - 1));
            assert(t.net.down[f - 1] == s.net.down[f - 1]);
            assert(t.uncommit_from(x, f - 1, n) == t.uncommit_from(x, l, n));
        }
        lemma_uncommit_walk(s, act, cols, x, f, l, k - 1, t);
    }
}

/// After covering `i`, the other entries of the option of the entry `x`
/// of its column can be committed one after another.
#[verifier::spinoff_prover]
#[verifier::rlimit(40)]
proof fn lemma_level_setup(s: LinksV, act: Set<int>, cols: Seq<Seq<int>>, i: int, m: int) -> (r: (
    int,
    int,
    Seq<Seq<int>>,
))
    requires
        consistent(s, act, cols),
        act.contains(i),
        0 <= m < cols[i].len(),
    ensures
        walks_ok(s.cover(i), act.remove(i), r.2, cols[i][m], r.0, r.1),
        s.cover(i).net.same_frame(s.net),
        s.cover(i).commit_option(cols[i][m]) == commit_all(s.cover(i), opt_entries(cols[i][m], r.0, r.1)),
{
    let x = cols[i][m];
    let n = s.net.n();
    let r1 = law_cover_consistent(s, act, cols, i);
    let s1 = s.cover(i);
    let act1 = act.remove(i);
    assert(column(s.net, i, cols[i]));
    assert(s.net.is_opt(x) && s.net.hdr[x] == i);
    let (f, l) = lemma_option_span(s.net, x);
    lemma_span_frame(s.net, s1.net, f, l);
    assert(whole(s.net, act, cols, cols[i][m]));
    let qs = opt_entries(x, f, l);
    assert forall|k: int| 0 <= k < qs.len() implies s1.net.is_opt(#[trigger] qs[k]) && same_option(s.net, x, qs[k])
        && qs[k] != x && s.net.is_opt(qs[k]) && live(s1.net, qs[k]) == live(s.net, qs[k]) && s1.net.hdr[qs[k]]
        == s.net.hdr[qs[k]] by {
        let q = opt_pos(x, f, l, k);
        assert(qs[k] == q);
        assert(same_option(s.net, x, q));
        assert(s.net.hdr[q] > 0);
    }
    assert forall|k: int| 0 <= k < qs.len() && live(s1.net, #[trigger] qs[k]) implies act1.contains(
        s1.net.hdr[qs[k]] as int,
    ) && !r1[s1.net.hdr[qs[k]] as int].contains(qs[k]) by {
        let q = qs[k];
        let c = s.net.hdr[q] as int;
        assert(act.contains(c) && c != i);
        if r1[c].contains(q) {
            assert(!same_option(s.net, cols[i][m], q));
        }
    }
    assert forall|k: int| 0 <= k < qs.len() && !live(s1.net, #[trigger] qs[k]) implies !act1.contains(
        s1.net.hdr[qs[k]] as int,
    ) by {}
    assert forall|a: int, b: int| 0 <= a < b < qs.len() && live(s1.net, qs[a]) && live(s1.net, qs[b]) implies #[trigger] s1.net.hdr[qs[a]]
        != #[trigger] s1.net.hdr[qs[b]] by {
        let qa = qs[a];
        let qb = qs[b];
        assert(qa == opt_pos(x, f, l, a) && qb == opt_pos(x, f, l, b));
        assert(qa != qb);
        let ca = s.net.hdr[qa] as int;
        assert(act.contains(ca) && cols[ca].contains(qa));
        let j = choose|j: int| 0 <= j < cols[ca].len() && cols[ca][j] == qa;
        assert(whole(s.net, act, cols, cols[ca][j]));
        lemma_same_option_trans(s.net, x, qa, qb);
    }
    assert(seq_ok(s1, act1, r1, qs));
    assert(s1.net.n() == n);
    lemma_commit_walk(s1, act1, r1, x, f, l, 0);
    assert(qs.take(0) =~= Seq::<int>::empty());
    if x == l {
        assert(s1.net.is_spacer(l + 1));
        assert(s1.net.up[l + 1] == f);
        assert(s1.commit_from(x, x + 1, n) == s1.commit_from(x, f, n));
    }
    (f, l, r1)
}

/// One level of the search undoes itself: from a consistent state, with
/// or without colors, covering an item `i`, committing the other entries
/// of the option of an entry `x` of its column, uncommitting them and
/// uncovering `i` gives back the same links, column lengths and colors.
#[verifier::spinoff_prover]
#[verifier::rlimit(40)]
pub proof fn law_level(s: LinksV, act: Set<int>, cols: Seq<Seq<int>>, i: int, m: int)
    requires
        consistent(s, act, cols),
        act.contains(i),
        0 <= m < cols[i].len(),
    ensures
        s.cover(i).commit_option(cols[i][m]).uncommit_option(cols[i][m]).uncover(i).net == s.net,
{
    let x = cols[i][m];
    let n = s.net.n();
    let (f, l, r1) = lemma_level_setup(s, act, cols, i, m);
    let s1 = s.cover(i);
    let act1 = act.remove(i);
    let qs = opt_entries(x, f, l);
    let t = commit_all(s1, qs);
    assert(qs.take(qs.len() as int) =~= qs);
    lemma_uncommit_walk(s1, act1, r1, x, f, l, qs.len() as int, t);
    lemma_commit_prefix(s1, act1, r1, qs, qs.len() as int);
    if x == f {
        assert(s1.net.is_spacer(f - 1));
        assert(t.net.is_spacer(f - 1));
        assert(t.net.down[f - 1] == s1.net.down[f - 1]);
        assert(t.uncommit_from(x, x - 1, n) == t.uncommit_from(x, l, n));
    }
    assert(s1.net.n() == n);
    assert(t.uncommit_option(x).net == s1.net);
    lemma_uncover_net(t.uncommit_option(x), s1, i);
    lemma_consistent_cover_ok(s, act, cols, i);
    law_uncover_cover(s, i, cols[i]);
}

/// Every level of the search leaves a consistent state: covering an item
/// `i` of a consistent state and committing the other entries of the
/// option of an entry of its column gives a consistent state, with `i`
/// and the items of these entries no longer to cover, so that
/// [`law_level`] applies again at the next level.
pub proof fn law_level_consistent(s: LinksV, act: Set<int>, cols: Seq<Seq<int>>, i: int, m: int) -> (r: (
    Set<int>,
    Seq<Seq<int>>,
))
    requires
        consistent(s, act, cols),
        act.contains(i),
        0 <= m < cols[i].len(),
    ensures
        consistent(s.cover(i).commit_option(cols[i][m]), r.0, r.1),
        r.0.subset_of(act),
        !r.0.contains(i),
        s.cover(i).commit_option(cols[i][m]).net.same_frame(s.net),
{
    let x = cols[i][m];
    let (f, l, r1) = lemma_level_setup(s, act, cols, i, m);
    let s1 = s.cover(i);
    let act1 = act.remove(i);
    let qs = opt_entries(x, f, l);
    let (a2, r2) = lemma_commit_prefix(s1, act1, r1, qs, qs.len() as int);
    assert(qs.take(qs.len() as int) =~= qs);
    lemma_frame_trans(commit_all(s1, qs).net, s1.net, s.net);
    (a2, r2)
}

/// Hiding reads nothing but the node arrays.
proof fn lemma_hide_net(t1: LinksV, t2: LinksV, p: int, q: int, n: int, colored: bool)
    requires
        t1.net == t2.net,
    ensures
        t1.hide_from(p, q, n, colored).net == t2.hide_from(p, q, n, colored).net,
    decreases (if q > p {
        2 * n - q
    } else {
        p - q
    }),
{
    if q == p || q < 0 || q >= n || p >= n {
    } else if t1.net.hdr[q] <= 0 {
        if q > p && t1.net.up[q] <= p {
            lemma_hide_net(t1, t2, p, t1.net.up[q] as int, n, colored);
        }
    } else {
        let n1 = if t1.active(q, colored) {
            t1.unlink(q)
        } else {
            t1
        };
        let n2 = if t2.active(q, colored) {
            t2.unlink(q)
        } else {
            t2
        };
        lemma_hide_net(n1, n2, p, q + 1, n, colored);
    }
}

/// Covering walks read nothing but the node arrays.
proof fn lemma_cover_walk_net(t1: LinksV, t2: LinksV, i: int, p: int, fuel: nat)
    requires
        t1.net == t2.net,
    ensures
        t1.cover_walk(i, p, fuel).net == t2.cover_walk(i, p, fuel).net,
    decreases fuel,
{
    if !(fuel == 0 || p == i || !t1.net.is_opt(p)) {
        lemma_hide_net(t1, t2, p, p + 1, t1.net.n(), t1.net.colored);
        let u1 = t1.hide_option(p);
        let u2 = t2.hide_option(p);
        lemma_cover_walk_net(u1, u2, i, u1.net.down[p] as int, (fuel - 1) as nat);
    }
}

/// Purifying walks read nothing but the node arrays.
proof fn lemma_purify_walk_net(t1: LinksV, t2: LinksV, c: Data, i: int, q: int, fuel: nat)
    requires
        t1.net == t2.net,
    ensures
        t1.purify_walk(c, i, q, fuel).net == t2.purify_walk(c, i, q, fuel).net,
    decreases fuel,
{
    if !(fuel == 0 || q == i || !t1.net.is_opt(q)) {
        let u1 = if t1.net.color[q] == c {
            t1.set_color(q, -1isize)
        } else {
            t1.hide_with(q, true)
        };
        let u2 = if t2.net.color[q] == c {
            t2.set_color(q, -1isize)
        } else {
            t2.hide_with(q, true)
        };
        if t1.net.color[q] != c {
            lemma_hide_net(t1, t2, q, q + 1, t1.net.n(), true);
        }
        lemma_purify_walk_net(u1, u2, c, i, u1.net.down[q] as int, (fuel - 1) as nat);
    }
}

/// Committing reads nothing but the node arrays.
pub proof fn lemma_commit_net(t1: LinksV, t2: LinksV, q: int, j: int)
    requires
        t1.net == t2.net,
    ensures
        t1.commit(q, j).net == t2.commit(q, j).net,
{
    lemma_cover_walk_net(t1, t2, j, t1.net.down[j] as int, t1.net.n() as nat);
    if t1.net.colored {
        let u1 = if t1.net.color[q] == 0 {
            t1.cover(j)
        } else {
            t1
        };
        let u2 = if t2.net.color[q] == 0 {
            t2.cover(j)
        } else {
            t2
        };
        if u1.net.color[q] > 0 {
            let i = u1.net.hdr[q] as int;
            lemma_purify_walk_net(u1, u2, u1.net.color[q], i, u1.net.down[i] as int, u1.net.n() as nat);
        }
    }
}

/// Covering reads nothing but the node arrays.
pub proof fn lemma_cover_net(t1: LinksV, t2: LinksV, i: int)
    requires
        t1.net == t2.net,
    ensures
        t1.cover(i).net == t2.cover(i).net,
{
    lemma_cover_walk_net(t1, t2, i, t1.net.down[i] as int, t1.net.n() as nat);
}

/// The walks of committing read nothing but the node arrays.
proof fn lemma_commit_from_net(t1: LinksV, t2: LinksV, x: int, q: int, n: int)
    requires
        t1.net == t2.net,
    ensures
        t1.commit_from(x, q, n).net == t2.commit_from(x, q, n).net,
    decreases (if q > x {
        2 * n - q
    } else {
        x - q
    }),
{
    if q == x || q < 0 || q >= n || x >= n {
    } else if t1.net.hdr[q] <= 0 {
        if q > x && t1.net.up[q] <= x {
            lemma_commit_from_net(t1, t2, x, t1.net.up[q] as int, n);
        }
    } else {
        let j = t1.net.hdr[q] as int;
        lemma_commit_net(t1, t2, q, j);
        lemma_commit_from_net(t1.commit(q, j), t2.commit(q, j), x, q + 1, n);
    }
}

/// The walks of uncommitting read nothing but the node arrays.
proof fn lemma_uncommit_from_net(t1: LinksV, t2: LinksV, x: int, q: int, n: int)
    requires
        t1.net == t2.net,
    ensures
        t1.uncommit_from(x, q, n).net == t2.uncommit_from(x, q, n).net,
    decreases (if q < x {
        n + q
    } else {
        q - x
    }),
{
    if q == x || q < 0 || q >= n || x >= n {
    } else if t1.net.hdr[q] <= 0 {
        if q < x && x <= t1.net.down[q] < n {
            lemma_uncommit_from_net(t1, t2, x, t1.net.down[q] as int, n);
        }
    } else {
        let j = t1.net.hdr[q] as int;
        lemma_uncommit_net(t1, t2, q, j);
        if q != 0 {
            lemma_uncommit_from_net(t1.uncommit(q, j), t2.uncommit(q, j), x, q - 1, n);
        }
    }
}

/// Committing an option reads nothing but the node arrays.
pub proof fn lemma_commit_option_net(t1: LinksV, t2: LinksV, x: int)
    requires
        t1.net == t2.net,
    ensures
        t1.commit_option(x).net == t2.commit_option(x).net,
{
    lemma_commit_from_net(t1, t2, x, x + 1, t1.net.n());
}

/// Uncommitting an option reads nothing but the node arrays.
pub proof fn lemma_uncommit_option_net(t1: LinksV, t2: LinksV, x: int)
    requires
        t1.net == t2.net,
    ensures
        t1.uncommit_option(x).net == t2.uncommit_option(x).net,
{
    lemma_uncommit_from_net(t1, t2, x, x - 1, t1.net.n());
}

/// Uncommitting the option of the entry `m` of the column of `i`, from a
/// state with the links of a level that covered `i` and committed it,
/// gives back the links from just after covering `i`, where the column of
/// `i` still lists its entries and leads from entry `m` to the next one.
#[verifier::spinoff_prover]
pub proof fn lemma_level_undo(s: LinksV, act: Set<int>, cols: Seq<Seq<int>>, i: int, m: int, u: LinksV)
    requires
        consistent(s, act, cols),
        act.contains(i),
        0 <= m < cols[i].len(),
        u.net == s.cover(i).commit_option(cols[i][m]).net,
    ensures
        u.uncommit_option(cols[i][m]).net == s.cover(i).net,
        column(s.cover(i).net, i, cols[i]),
        s.cover(i).net.down[cols[i][m]] == (if m + 1 < cols[i].len() {
            cols[i][m + 1]
        } else {
            i
        }),
        s.cover(i).net.same_frame(s.net),
{
    let x = cols[i][m];
    let n = s.net.n();
    let (f, l, r1) = lemma_level_setup(s, act, cols, i, m);
    law_cover_consistent(s, act, cols, i);
    let s1 = s.cover(i);
    let act1 = act.remove(i);
    let qs = opt_entries(x, f, l);
    let t = commit_all(s1, qs);
    assert(qs.take(qs.len() as int) =~= qs);
    lemma_uncommit_walk(s1, act1, r1, x, f, l, qs.len() as int, t);
    lemma_commit_prefix(s1, act1, r1, qs, qs.len() as int);
    if x == f {
        assert(s1.net.is_spacer(f - 1));
        assert(t.net.is_spacer(f - 1));
        assert(t.net.down[f - 1] == s1.net.down[f - 1]);
        assert(t.uncommit_from(x, x - 1, n) == t.uncommit_from(x, l, n));
    }
    assert(s1.net.n() == n);
    assert(t.uncommit_option(x).net == s1.net);
    lemma_uncommit_option_net(u, t, x);
}

/// The item lists read nothing but the item links and the numbers of
/// items.
proof fn lemma_lists_same(a: Net, b: Net, act: Set<int>, lst: Seq<int>, slst: Seq<int>)
    requires
        lists_ok(a, act, lst, slst),
        a.left == b.left,
        a.right == b.right,
        a.primary == b.primary,
        a.len == b.len,
    ensures
        lists_ok(b, act, lst, slst),
{
}

/// Committing the first of a run of entries keeps the item lists, and
/// leaves colors only on entries of secondary items.
#[verifier::spinoff_prover]
#[verifier::rlimit(40)]
proof fn lemma_commit_first_lists(
    s: LinksV,
    act: Set<int>,
    cols: Seq<Seq<int>>,
    lst: Seq<int>,
    slst: Seq<int>,
    qs: Seq<int>,
) -> (r: (Set<int>, Seq<Seq<int>>, Seq<int>, Seq<int>))
    requires
        consistent(s, act, cols),
        seq_ok(s, act, cols, qs),
        qs.len() > 0,
        lists_ok(s.net, act, lst, slst),
        colors_secondary(s.net),
    ensures
        consistent(s.commit(qs[0], s.net.hdr[qs[0]] as int), r.0, r.1),
        seq_ok(s.commit(qs[0], s.net.hdr[qs[0]] as int), r.0, r.1, qs.drop_first()),
        s.commit(qs[0], s.net.hdr[qs[0]] as int).net.same_frame(s.net),
        lists_ok(s.commit(qs[0], s.net.hdr[qs[0]] as int).net, r.0, r.2, r.3),
        colors_secondary(s.commit(qs[0], s.net.hdr[qs[0]] as int).net),
        r.0.subset_of(act),
        r.0 == (if live(s.net, qs[0]) {
            act.remove(s.net.hdr[qs[0]] as int)
        } else {
            act
        }),
        forall|k: int|
            0 <= k < qs.drop_first().len() ==> s.commit(qs[0], s.net.hdr[qs[0]] as int).net.color[
            #[trigger] qs.drop_first()[k]] == s.net.color[qs.drop_first()[k]],
        forall|x: int|
            0 <= x < s.net.color.len() && #[trigger] s.commit(qs[0], s.net.hdr[qs[0]] as int).net.color[x]
                != s.net.color[x] ==> s.commit(qs[0], s.net.hdr[qs[0]] as int).net.color[x] == -1
                && s.net.hdr[x] == s.net.hdr[qs[0]] && live(s.net, qs[0]) && s.net.color[qs[0]] > 0
                && s.net.color[x] == s.net.color[qs[0]] && s.net.is_opt(x),
{
    let q = qs[0];
    assert(s.net.is_opt(qs[0]));
    let j = s.net.hdr[q] as int;
    let s1 = s.commit(q, j);
    let (a2, c2) = lemma_commit_first(s, act, cols, qs);
    reveal(commit_effect);
    lemma_col_facts(s.net, q);
    let covered = live(s.net, q) && (!s.net.colored || s.net.color[q] == 0);
    let (l2, sl2) = if covered {
        assert(act.contains(j));
        let (l2, sl2) = lemma_lists_unlink(s.net, act, lst, slst, j);
        lemma_lists_same(s.net.unlink_item(j), s1.net, act.remove(j), l2, sl2);
        (l2, sl2)
    } else if live(s.net, q) {
        assert(s.net.color[q] > 0);
        assert(j > s.net.primary);
        assert forall|k: int| 0 <= k < lst.len() implies 1 <= #[trigger] lst[k] <= s1.net.primary && a2.contains(
            lst[k],
        ) by {
            assert(lst[k] <= s.net.primary);
        }
        assert forall|c: int| #[trigger] a2.contains(c) implies (c <= s1.net.primary ==> lst.contains(c)) && (c
            > s1.net.primary ==> slst.contains(c)) by {
            assert(act.contains(c));
        }
        (lst, slst)
    } else {
        (lst, slst)
    };
    assert forall|x: int| 0 <= x < s.net.color.len() && #[trigger] s1.net.color[x] != s.net.color[x] implies s.net.hdr[x]
        > s.net.primary by {
        assert(s.net.hdr[x] == j && live(s.net, q) && s.net.color[q] > 0);
    }
    lemma_colors_keep(s.net, s1.net);
    (a2, c2, l2, sl2)
}

/// A consistent state with item lists, colors only on entries of
/// secondary items, from which the entries `qs` can be committed.
#[verifier::opaque]
pub open spec fn ready(s: LinksV, act: Set<int>, cols: Seq<Seq<int>>, lst: Seq<int>, slst: Seq<int>, qs: Seq<int>) -> bool {
    &&& consistent(s, act, cols)
    &&& seq_ok(s, act, cols, qs)
    &&& lists_ok(s.net, act, lst, slst)
    &&& colors_secondary(s.net)
}

/// Committing the first entry keeps the state ready for the others.
proof fn lemma_commit_first_ready(
    s: LinksV,
    act: Set<int>,
    cols: Seq<Seq<int>>,
    lst: Seq<int>,
    slst: Seq<int>,
    qs: Seq<int>,
) -> (r: (Set<int>, Seq<Seq<int>>, Seq<int>, Seq<int>))
    requires
        ready(s, act, cols, lst, slst, qs),
        qs.len() > 0,
    ensures
        ready(s.commit(qs[0], s.net.hdr[qs[0]] as int), r.0, r.1, r.2, r.3, qs.drop_first()),
        s.commit(qs[0], s.net.hdr[qs[0]] as int).net.same_frame(s.net),
        r.0.subset_of(act),
        r.0 == (if live(s.net, qs[0]) {
            act.remove(s.net.hdr[qs[0]] as int)
        } else {
            act
        }),
        forall|k: int|
            0 <= k < qs.drop_first().len() ==> s.commit(qs[0], s.net.hdr[qs[0]] as int).net.color[
            #[trigger] qs.drop_first()[k]] == s.net.color[qs.drop_first()[k]],
        forall|x: int|
            0 <= x < s.net.color.len() && #[trigger] s.commit(qs[0], s.net.hdr[qs[0]] as int).net.color[x]
                != s.net.color[x] ==> s.commit(qs[0], s.net.hdr[qs[0]] as int).net.color[x] == -1
                && s.net.hdr[x] == s.net.hdr[qs[0]] && live(s.net, qs[0]) && s.net.color[qs[0]] > 0
                && s.net.color[x] == s.net.color[qs[0]] && s.net.is_opt(x),
{
    reveal(ready);
    lemma_commit_first_lists(s, act, cols, lst, slst, qs)
}

/// After committing the first `k` of a run of entries, from the items
/// `act` still to cover to the items `a`: the items taken out are items of
/// the entries committed, every live entry committed took its item out,
/// and the colors of the entries still to commit stay.
#[verifier::opaque]
pub open spec fn prefix_log(s: LinksV, act: Set<int>, a: Set<int>, qs: Seq<int>, k: int) -> bool {
    &&& forall|c: int|
        act.contains(c) && !a.contains(c) ==> exists|j: int| 0 <= j < k && #[trigger] s.net.hdr[qs[j]] == c
    &&& forall|j: int| 0 <= j < k && live(s.net, #[trigger] qs[j]) ==> !a.contains(s.net.hdr[qs[j]] as int)
    &&& forall|j: int| k <= j < qs.len() ==> commit_all(s, qs.take(k)).net.color[#[trigger] qs[j]] == s.net.color[qs[j]]
    &&& colors_log(s, qs, k)
}

/// After committing the first `k` of a run of entries, the colors that
/// changed are `-1`, on entries of the item of a live committed entry with
/// a color, which had that color.
#[verifier::opaque]
pub open spec fn colors_log(s: LinksV, qs: Seq<int>, k: int) -> bool {
    forall|x: int|
        0 <= x < s.net.color.len() && #[trigger] commit_all(s, qs.take(k)).net.color[x] != s.net.color[x]
            ==> commit_all(s, qs.take(k)).net.color[x] == -1 && s.net.is_opt(x) && exists|j: int|
            0 <= j < k && live(s.net, qs[j]) && s.net.color[qs[j]] > 0 && #[trigger] s.net.hdr[qs[j]]
                == s.net.hdr[x] && s.net.color[x] == s.net.color[qs[j]]
}

/// One more committed entry keeps the log of changed colors.
proof fn lemma_prefix_colors(s: LinksV, w: LinksV, qs: Seq<int>, k: int)
    requires
        1 <= k <= qs.len(),
        w == commit_all(s, qs.take(k - 1)),
        w.net.same_frame(s.net),
        forall|j: int| 0 <= j < qs.len() ==> s.net.is_opt(#[trigger] qs[j]),
        forall|j: int| k - 1 <= j < qs.len() ==> w.net.color[#[trigger] qs[j]] == s.net.color[qs[j]],
        colors_log(s, qs, k - 1),
        commit_all(s, qs.take(k)) == w.commit(qs[k - 1], w.net.hdr[qs[k - 1]] as int),
        forall|x: int|
            0 <= x < w.net.color.len() && #[trigger] w.commit(qs[k - 1], w.net.hdr[qs[k - 1]] as int).net.color[x]
                != w.net.color[x] ==> w.commit(qs[k - 1], w.net.hdr[qs[k - 1]] as int).net.color[x] == -1
                && w.net.hdr[x] == w.net.hdr[qs[k - 1]] && live(w.net, qs[k - 1]) && w.net.color[qs[k - 1]] > 0
                && w.net.color[x] == w.net.color[qs[k - 1]] && w.net.is_opt(x),
    ensures
        colors_log(s, qs, k),
{
    reveal(colors_log);
    let q = qs[k - 1];
    let w2 = commit_all(s, qs.take(k));
    assert(s.net.is_opt(qs[k - 1]));
    assert(w.net.hdr[q] == s.net.hdr[q]);
    assert(w.net.color[qs[k - 1]] == s.net.color[qs[k - 1]]);
    assert forall|x: int| 0 <= x < s.net.color.len() && #[trigger] w2.net.color[x] != s.net.color[x] implies w2.net.color[x]
        == -1 && s.net.is_opt(x) && exists|j: int|
        0 <= j < k && live(s.net, qs[j]) && s.net.color[qs[j]] > 0 && #[trigger] s.net.hdr[qs[j]] == s.net.hdr[x]
            && s.net.color[x] == s.net.color[qs[j]] by {
        if w.net.color[x] != s.net.color[x] {
            assert(w.net.color[x] == -1);
            let j = choose|j: int|
                0 <= j < k - 1 && live(s.net, qs[j]) && s.net.color[qs[j]] > 0 && #[trigger] s.net.hdr[qs[j]]
                    == s.net.hdr[x] && s.net.color[x] == s.net.color[qs[j]];
            assert(w2.net.color[x] == w.net.color[x]);
            assert(s.net.hdr[qs[j]] == s.net.hdr[x]);
        } else {
            assert(w.net.hdr[x] == s.net.hdr[x]);
            assert(s.net.hdr[qs[k - 1]] == s.net.hdr[x]);
        }
    }
}

/// After committing the first `k` of a run of entries that can be
/// committed, the state is ready for the others.
pub proof fn lemma_commit_prefix_lists(
    s: LinksV,
    act: Set<int>,
    cols: Seq<Seq<int>>,
    lst: Seq<int>,
    slst: Seq<int>,
    qs: Seq<int>,
    k: int,
) -> (r: (Set<int>, Seq<Seq<int>>, Seq<int>, Seq<int>))
    requires
        ready(s, act, cols, lst, slst, qs),
        0 <= k <= qs.len(),
    ensures
        ready(commit_all(s, qs.take(k)), r.0, r.1, r.2, r.3, qs.skip(k)),
        commit_all(s, qs.take(k)).net.same_frame(s.net),
        r.0.subset_of(act),
        prefix_log(s, act, r.0, qs, k),
    decreases k,
{
    reveal(prefix_log);
    if k == 0 {
        assert(qs.take(0) =~= Seq::<int>::empty());
        assert(qs.skip(0) =~= qs);
        assert(s.net.same_frame(s.net));
        assert(colors_log(s, qs, 0)) by {
            reveal(colors_log);
        }
        (act, cols, lst, slst)
    } else {
        let (a0, r0, l0, sl0) = lemma_commit_prefix_lists(s, act, cols, lst, slst, qs, k - 1);
        let w = commit_all(s, qs.take(k - 1));
        let rest = qs.skip(k - 1);
        assert(rest.len() > 0);
        assert(rest[0] == qs[k - 1]);
        let (a1, r1, l1, sl1) = lemma_commit_first_ready(w, a0, r0, l0, sl0, rest);
        lemma_commit_all_push(s, qs.take(k - 1), qs[k - 1]);
        assert(qs.take(k - 1).push(qs[k - 1]) =~= qs.take(k));
        assert(rest.drop_first() =~= qs.skip(k));
        lemma_frame_trans(commit_all(s, qs.take(k)).net, w.net, s.net);
        assert(forall|j: int| 0 <= j < qs.len() ==> s.net.is_opt(#[trigger] qs[j])) by {
            reveal(ready);
        }
        lemma_prefix_step(s, w, act, a0, a1, qs, k);
        lemma_prefix_colors(s, w, qs, k);
        (a1, r1, l1, sl1)
    }
}

/// One more committed entry of a run: the items no longer to cover are
/// those of the live entries committed so far, and the colors of the
/// entries still to commit stay.
#[verifier::spinoff_prover]
#[verifier::rlimit(40)]
proof fn lemma_prefix_step(s: LinksV, w: LinksV, act: Set<int>, a0: Set<int>, a1: Set<int>, qs: Seq<int>, k: int)
    requires
        1 <= k <= qs.len(),
        w == commit_all(s, qs.take(k - 1)),
        w.net.same_frame(s.net),
        forall|j: int| 0 <= j < qs.len() ==> s.net.is_opt(#[trigger] qs[j]),
        a0.subset_of(act),
        forall|c: int|
            act.contains(c) && !a0.contains(c) ==> exists|j: int| 0 <= j < k - 1 && #[trigger] s.net.hdr[qs[j]] == c,
        forall|j: int| 0 <= j < k - 1 && live(s.net, #[trigger] qs[j]) ==> !a0.contains(s.net.hdr[qs[j]] as int),
        forall|j: int| k - 1 <= j < qs.len() ==> w.net.color[#[trigger] qs[j]] == s.net.color[qs[j]],
        a1 == (if live(w.net, qs.skip(k - 1)[0]) {
            a0.remove(w.net.hdr[qs.skip(k - 1)[0]] as int)
        } else {
            a0
        }),
        forall|t: int|
            0 <= t < qs.skip(k - 1).drop_first().len() ==> w.commit(qs.skip(k - 1)[0], w.net.hdr[qs.skip(k - 1)[0]] as int).net.color[
            #[trigger] qs.skip(k - 1).drop_first()[t]] == w.net.color[qs.skip(k - 1).drop_first()[t]],
        commit_all(s, qs.take(k)) == w.commit(qs[k - 1], w.net.hdr[qs[k - 1]] as int),
    ensures
        a1.subset_of(act),
        forall|c: int|
            act.contains(c) && !a1.contains(c) ==> exists|j: int| 0 <= j < k && #[trigger] s.net.hdr[qs[j]] == c,
        forall|j: int| 0 <= j < k && live(s.net, #[trigger] qs[j]) ==> !a1.contains(s.net.hdr[qs[j]] as int),
        forall|j: int| k <= j < qs.len() ==> commit_all(s, qs.take(k)).net.color[#[trigger] qs[j]] == s.net.color[qs[j]],
{
    let q = qs[k - 1];
    let rest = qs.skip(k - 1);
    assert(rest[0] == q);
    assert(s.net.is_opt(qs[k - 1]));
    assert(w.net.hdr[q] == s.net.hdr[q]);
    assert(w.net.color[qs[k - 1]] == s.net.color[qs[k - 1]]);
    assert(live(w.net, q) == live(s.net, q));
    let h = s.net.hdr[q] as int;
    assert forall|c: int| act.contains(c) && !a1.contains(c) implies exists|j: int| 0 <= j < k && #[trigger] s.net.hdr[qs[j]] == c by {
        if a0.contains(c) {
            assert(c == h);
            assert(s.net.hdr[qs[k - 1]] == c);
        } else {
            let j = choose|j: int| 0 <= j < k - 1 && #[trigger] s.net.hdr[qs[j]] == c;
            assert(s.net.hdr[qs[j]] == c);
        }
    }
    assert forall|j: int| k <= j < qs.len() implies commit_all(s, qs.take(k)).net.color[#[trigger] qs[j]] == s.net.color[qs[j]] by {
        assert(rest.drop_first()[j - k] == qs[j]);
        assert(w.net.color[qs[j]] == s.net.color[qs[j]]);
    }
}

/// Covering an item still to cover keeps the item lists, without it, and
/// the colors.
#[verifier::spinoff_prover]
proof fn lemma_cover_lists(s: LinksV, act: Set<int>, cols: Seq<Seq<int>>, lst: Seq<int>, slst: Seq<int>, i: int) -> (r: (
    Seq<int>,
    Seq<int>,
))
    requires
        consistent(s, act, cols),
        lists_ok(s.net, act, lst, slst),
        colors_secondary(s.net),
        act.contains(i),
    ensures
        lists_ok(s.cover(i).net, act.remove(i), r.0, r.1),
        colors_secondary(s.cover(i).net),
{
    law_cover_consistent(s, act, cols, i);
    let s1 = s.cover(i);
    assert(s.net.is_hdr(i));
    let (l1, sl1) = lemma_lists_unlink(s.net, act, lst, slst, i);
    lemma_lists_same(s.net.unlink_item(i), s1.net, act.remove(i), l1, sl1);
    lemma_colors_keep(s.net, s1.net);
    (l1, sl1)
}

/// Item `c` has an entry in the option of the entry `x`.
pub open spec fn in_option(s: Net, x: int, c: int) -> bool {
    exists|e: int| #[trigger] same_option(s, x, e) && s.is_opt(e) && s.hdr[e] == c
}

/// What a level that committed the option of `x` did to the items still
/// to cover, `a` before it and `a2` after it: it took out only items of
/// the option, and every primary item of the option (every item, when
/// the problem has no colors) was still to cover and is no longer.
#[verifier::opaque]
pub open spec fn level_log(s: Net, a: Set<int>, a2: Set<int>, x: int) -> bool {
    &&& a2.subset_of(a)
    &&& forall|c: int| a.contains(c) && !a2.contains(c) ==> in_option(s, x, c)
    &&& forall|q: int|
        #[trigger] same_option(s, x, q) && s.is_opt(q) && (s.hdr[q] <= s.primary || !s.colored) ==> a.contains(
            s.hdr[q] as int,
        )
            && !a2.contains(s.hdr[q] as int)
}

/// Whether two entries share an option reads only the headers of option
/// nodes, which no dancing operation changes.
pub proof fn lemma_same_option_frame(s: Net, o: Net, x: int, q: int)
    requires
        s.same_frame(o),
        s.is_opt(x),
        s.len + 2 <= q < s.n(),
    ensures
        same_option(s, x, q) == same_option(o, x, q),
{
    if same_option(s, x, q) {
        assert forall|y: int| (x <= y <= q || q <= y <= x) implies #[trigger] o.hdr[y] > 0 by {
            assert(s.hdr[y] > 0);
        }
    }
    if same_option(o, x, q) {
        assert forall|y: int| (x <= y <= q || q <= y <= x) implies #[trigger] s.hdr[y] > 0 by {
            assert(o.hdr[y] > 0);
        }
    }
}

/// What a level did to the items still to cover is read the same in any
/// state with the same frame.
pub proof fn lemma_level_log_frame(s: Net, o: Net, a: Set<int>, a2: Set<int>, x: int)
    requires
        level_log(s, a, a2, x),
        s.same_frame(o),
        s.is_opt(x),
    ensures
        level_log(o, a, a2, x),
{
    reveal(level_log);
    assert forall|c: int| a.contains(c) && !a2.contains(c) implies in_option(o, x, c) by {
        let e = choose|e: int| #[trigger] same_option(s, x, e) && s.is_opt(e) && s.hdr[e] == c;
        lemma_same_option_frame(s, o, x, e);
        assert(o.hdr[e] == s.hdr[e]);
    }
    assert forall|q: int| #[trigger] same_option(o, x, q) && o.is_opt(q) && (o.hdr[q] <= o.primary || !o.colored) implies a.contains(
        o.hdr[q] as int,
    ) && !a2.contains(o.hdr[q] as int) by {
        assert(o.hdr[q] == s.hdr[q]);
        lemma_same_option_frame(s, o, x, q);
    }
}

/// The other entries of the option `f..=l` of `x` are those met walking
/// around it from `x`.
proof fn lemma_option_entries(s: Net, x: int, f: int, l: int)
    requires
        span(s, f, l),
        f <= x <= l,
    ensures
        forall|k: int|
            0 <= k < opt_entries(x, f, l).len() ==> same_option(s, x, #[trigger] opt_entries(x, f, l)[k]) && s.is_opt(
                opt_entries(x, f, l)[k],
            ) && opt_entries(x, f, l)[k] != x,
        forall|q: int|
            #[trigger] same_option(s, x, q) && s.is_opt(q) && q != x ==> exists|k: int|
                0 <= k < opt_entries(x, f, l).len() && opt_entries(x, f, l)[k] == q,
{
    let qs = opt_entries(x, f, l);
    assert forall|k: int| 0 <= k < qs.len() implies same_option(s, x, #[trigger] qs[k]) && s.is_opt(qs[k]) && qs[k]
        != x by {
        assert(qs[k] == opt_pos(x, f, l, k));
    }
    assert forall|q: int| #[trigger] same_option(s, x, q) && s.is_opt(q) && q != x implies exists|k: int|
        0 <= k < qs.len() && qs[k] == q by {
        if q < f {
            assert(s.hdr[f - 1] > 0);
        } else if q > l {
            assert(s.hdr[l + 1] > 0);
        } else if q > x {
            let k = q - x - 1;
            assert(qs[k] == opt_pos(x, f, l, k));
        } else {
            let k = q - f + (l - x);
            assert(qs[k] == opt_pos(x, f, l, k));
        }
    }
}

/// Every level of the search keeps the item lists: from a consistent
/// state with its item lists, covering an item `i` and committing the
/// other entries of the option of an entry of its column gives a
/// consistent state with item lists, the items still to cover fewer and
/// without `i`.
#[verifier::spinoff_prover]
#[verifier::rlimit(100)]
pub proof fn law_level_lists(
    s: LinksV,
    act: Set<int>,
    cols: Seq<Seq<int>>,
    lst: Seq<int>,
    slst: Seq<int>,
    i: int,
    m: int,
) -> (r: (Set<int>, Seq<Seq<int>>, Seq<int>, Seq<int>))
    requires
        consistent(s, act, cols),
        lists_ok(s.net, act, lst, slst),
        colors_secondary(s.net),
        act.contains(i),
        0 <= m < cols[i].len(),
    ensures
        consistent(s.cover(i).commit_option(cols[i][m]), r.0, r.1),
        lists_ok(s.cover(i).commit_option(cols[i][m]).net, r.0, r.2, r.3),
        colors_secondary(s.cover(i).commit_option(cols[i][m]).net),
        s.cover(i).commit_option(cols[i][m]).net.same_frame(s.net),
        r.0.subset_of(act),
        !r.0.contains(i),
        level_log(s.net, act, r.0, cols[i][m]),
        level_colors(s.net, s.cover(i).commit_option(cols[i][m]).net, act, r.0, cols[i][m]),
{
    let x = cols[i][m];
    let (f, l, r1) = lemma_level_setup(s, act, cols, i, m);
    let s1 = s.cover(i);
    let act1 = act.remove(i);
    let (l1, sl1) = lemma_cover_lists(s, act, cols, lst, slst, i);
    let qs = opt_entries(x, f, l);
    assert(ready(s1, act1, r1, l1, sl1, qs)) by {
        reveal(ready);
    }
    let (a2, c2, l2, sl2) = lemma_commit_prefix_lists(s1, act1, r1, l1, sl1, qs, qs.len() as int);
    lemma_level_log(s, act, cols, i, m, f, l, a2);
    assert(qs.take(qs.len() as int) =~= qs);
    assert(ready(commit_all(s1, qs), a2, c2, l2, sl2, qs.skip(qs.len() as int)));
    reveal(ready);
    lemma_frame_trans(commit_all(s1, qs).net, s1.net, s.net);
    lemma_level_colors(s, act, cols, i, m, f, l, a2);
    (a2, c2, l2, sl2)
}

/// What a level that committed the option of `x`, from the state `s` to
/// the state `t`, did to the items still to cover, `a` before and `a2`
/// after, and to colors: the item of each live entry of the option was
/// still to cover and is no longer, that of each other entry was not; the
/// colors that changed are `-1`, on entries of the item of a live entry of
/// the option with a color, which had that color.
#[verifier::opaque]
pub open spec fn level_colors(s: Net, t: Net, a: Set<int>, a2: Set<int>, x: int) -> bool {
    &&& t.color.len() == s.color.len()
    &&& forall|q: int|
        #[trigger] same_option(s, x, q) && s.is_opt(q) ==> (live(s, q) ==> a.contains(s.hdr[q] as int)
            && !a2.contains(s.hdr[q] as int)) && (!live(s, q) ==> !a.contains(s.hdr[q] as int))
    &&& forall|e: int|
        0 <= e < s.color.len() && #[trigger] t.color[e] != s.color[e] ==> t.color[e] == -1 && exists|q: int|
            #[trigger] same_option(s, x, q) && s.is_opt(q) && live(s, q) && s.color[q] > 0 && s.hdr[q]
                == s.hdr[e] && s.color[e] == s.color[q]
    &&& forall|q1: int, q2: int|
        #[trigger] same_option(s, x, q1) && #[trigger] same_option(s, x, q2) && s.is_opt(q1) && s.is_opt(q2)
            && live(s, q1) && s.hdr[q1] == s.hdr[q2] ==> q1 == q2
}

/// The colors a level changes, and the items of the entries of its
/// option.
#[verifier::spinoff_prover]
#[verifier::rlimit(40)]
proof fn lemma_level_colors(s: LinksV, act: Set<int>, cols: Seq<Seq<int>>, i: int, m: int, f: int, l: int, a2: Set<int>)
    requires
        consistent(s, act, cols),
        act.contains(i),
        0 <= m < cols[i].len(),
        f <= cols[i][m] <= l,
        span(s.cover(i).net, f, l),
        a2.subset_of(act.remove(i)),
        prefix_log(s.cover(i), act.remove(i), a2, opt_entries(cols[i][m], f, l), opt_entries(cols[i][m], f, l).len() as int),
        s.cover(i).commit_option(cols[i][m]) == commit_all(s.cover(i), opt_entries(cols[i][m], f, l)),
        s.cover(i).commit_option(cols[i][m]).net.same_frame(s.net),
    ensures
        level_colors(s.net, s.cover(i).commit_option(cols[i][m]).net, act, a2, cols[i][m]),
{
    reveal(level_colors);
    reveal(prefix_log);
    reveal(colors_log);
    let x = cols[i][m];
    let qs = opt_entries(x, f, l);
    let s1 = s.cover(i);
    let t = s1.commit_option(x);
    law_cover_consistent(s, act, cols, i);
    assert(s.net.same_frame(s1.net)) by {
        assert forall|y: int| #[trigger] s.net.is_spacer(y) implies s.net.up[y] == s1.net.up[y] && s.net.down[y]
            == s1.net.down[y] by {
            assert(s1.net.hdr[y] == s.net.hdr[y]);
            assert(s1.net.is_spacer(y));
        }
    }
    lemma_span_frame(s1.net, s.net, f, l);
    lemma_option_entries(s.net, x, f, l);
    assert(column(s.net, i, cols[i]));
    assert(s.net.is_opt(x) && s.net.hdr[x] == i);
    assert(live(s.net, x));
    assert(whole(s.net, act, cols, cols[i][m]));
    assert(qs.take(qs.len() as int) =~= qs);
    assert(colors_log(s1, qs, qs.len() as int));
    assert forall|q: int| #[trigger] same_option(s.net, x, q) && s.net.is_opt(q) implies (live(s.net, q)
        ==> act.contains(s.net.hdr[q] as int) && !a2.contains(s.net.hdr[q] as int)) && (!live(s.net, q)
        ==> !act.contains(s.net.hdr[q] as int)) by {
        if q != x {
            let k = choose|k: int| 0 <= k < qs.len() && qs[k] == q;
            if live(s.net, q) {
                assert(live(s1.net, qs[k]));
                assert(s1.net.hdr[qs[k]] == s.net.hdr[q]);
            }
        }
    }
    assert forall|e: int| 0 <= e < s.net.color.len() && #[trigger] t.net.color[e] != s.net.color[e] implies t.net.color[e]
        == -1 && exists|q: int|
        #[trigger] same_option(s.net, x, q) && s.net.is_opt(q) && live(s.net, q) && s.net.color[q] > 0 && s.net.hdr[q]
            == s.net.hdr[e] && s.net.color[e] == s.net.color[q] by {
        let j = choose|j: int|
            0 <= j < qs.len() && live(s1.net, qs[j]) && s1.net.color[qs[j]] > 0 && #[trigger] s1.net.hdr[qs[j]]
                == s1.net.hdr[e] && s1.net.color[e] == s1.net.color[qs[j]];
        let q = qs[j];
        assert(same_option(s.net, x, q) && s.net.is_opt(q));
        assert(s1.net.hdr[q] == s.net.hdr[q]);
        assert(s1.net.hdr[e] == s.net.hdr[e]);
    }
    assert forall|q1: int, q2: int|
        #[trigger] same_option(s.net, x, q1) && #[trigger] same_option(s.net, x, q2) && s.net.is_opt(q1)
            && s.net.is_opt(q2) && live(s.net, q1) && s.net.hdr[q1] == s.net.hdr[q2] implies q1 == q2 by {
        if q1 == x {
        } else if q2 == x {
        } else {
            let c1 = s.net.hdr[q1] as int;
            assert(act.contains(c1) && cols[c1].contains(q1));
            let j = choose|j: int| 0 <= j < cols[c1].len() && cols[c1][j] == q1;
            assert(whole(s.net, act, cols, cols[c1][j]));
            lemma_same_option_trans(s.net, x, q1, q2);
        }
    }
}

/// The items a level takes out of those still to cover.
#[verifier::spinoff_prover]
#[verifier::rlimit(40)]
proof fn lemma_level_log(s: LinksV, act: Set<int>, cols: Seq<Seq<int>>, i: int, m: int, f: int, l: int, a2: Set<int>)
    requires
        consistent(s, act, cols),
        colors_secondary(s.net),
        act.contains(i),
        0 <= m < cols[i].len(),
        f <= cols[i][m] <= l,
        span(s.cover(i).net, f, l),
        a2.subset_of(act.remove(i)),
        prefix_log(s.cover(i), act.remove(i), a2, opt_entries(cols[i][m], f, l), opt_entries(cols[i][m], f, l).len() as int),
    ensures
        level_log(s.net, act, a2, cols[i][m]),
{
    reveal(level_log);
    reveal(prefix_log);
    let x = cols[i][m];
    let qs = opt_entries(x, f, l);
    let s1 = s.cover(i);
    law_cover_consistent(s, act, cols, i);
    assert(s.net.same_frame(s1.net)) by {
        assert forall|y: int| #[trigger] s.net.is_spacer(y) implies s.net.up[y] == s1.net.up[y] && s.net.down[y]
            == s1.net.down[y] by {
            assert(s1.net.hdr[y] == s.net.hdr[y]);
            assert(s1.net.is_spacer(y));
        }
    }
    lemma_span_frame(s1.net, s.net, f, l);
    lemma_option_entries(s.net, x, f, l);
    assert(column(s.net, i, cols[i]));
    assert(s.net.is_opt(x) && s.net.hdr[x] == i);
    assert(same_option(s.net, x, x));
    assert forall|c: int| act.contains(c) && !a2.contains(c) implies in_option(s.net, x, c) by {
        if c != i {
            let j = choose|j: int| 0 <= j < qs.len() && #[trigger] s1.net.hdr[qs[j]] == c;
            assert(s1.net.hdr[qs[j]] == c);
            assert(same_option(s.net, x, qs[j]) && s.net.is_opt(qs[j]));
            assert(s.net.hdr[qs[j]] == c);
        }
    }
    assert forall|q: int| #[trigger] same_option(s.net, x, q) && s.net.is_opt(q) && (s.net.hdr[q] <= s.net.primary
        || !s.net.colored) implies act.contains(
        s.net.hdr[q] as int,
    ) && !a2.contains(s.net.hdr[q] as int) by {
        if q != x {
            let k = choose|k: int| 0 <= k < qs.len() && qs[k] == q;
            if s.net.colored {
                assert(s.net.color[q] == 0);
            }
            assert(live(s.net, q));
            assert(whole(s.net, act, cols, cols[i][m]));
            assert(live(s1.net, qs[k]));
            assert(s1.net.hdr[qs[k]] == s.net.hdr[q]);
        }
    }
}

} // verus!