//! Purifying keeps a consistent state of a problem with colors
//! consistent: the entries of the purified color leave the items still to
//! cover, the options of the other entries of the column are hidden.

use vstd::prelude::*;

use crate::covering::{
    column, lemma_pur, lemma_purify_walk, lemma_same_option_frame, lemma_same_option_trans,
    lemma_unlink_all_outside, pur,
};
use crate::hiding::{
    hidden_entries, lemma_hidden_facts, lemma_hide_with, lemma_option_span, lemma_unlink_all_wf,
    same_option, span, unlink_all,
};
use crate::levels::{
    consistent, lemma_consistent_cover_ok, lemma_hidden_all, lemma_unlink_seq, lemma_whole_after, live,
    whole,
};
use crate::links::{item_linked, lemma_col_facts, lemma_color_wf, lemma_frame_trans, LinksV, Net};
use crate::Data;

verus! {

/// While column `j`, which lists `es`, is purified from position `k` on:
/// the other entries of the option of `e` are entries of other items; the
/// live ones of items other than `j` are of items in `act`, in the column
/// lists, the purified ones of items not in `act`; and the live ones of
/// `j` are among `es[k..]`.
pub open spec fn whole_pur(
    s: Net,
    act: Set<int>,
    cols: Seq<Seq<int>>,
    j: int,
    es: Seq<int>,
    k: int,
    e: int,
) -> bool {
    forall|q: int|
        #[trigger] same_option(s, e, q) && s.is_opt(q) && q != e ==> {
            &&& s.hdr[q] != s.hdr[e]
            &&& s.hdr[q] != j && live(s, q) ==> act.contains(s.hdr[q] as int) && cols[s.hdr[q] as int].contains(q)
            &&& s.hdr[q] != j && !live(s, q) ==> !act.contains(s.hdr[q] as int)
            &&& s.hdr[q] == j && live(s, q) ==> es.subrange(k, es.len() as int).contains(q)
        }
}

/// Purifying column `j`, which lists `es`, for color `c` has dealt with
/// its first `k` entries: the columns of `act` are the cycles of their
/// lists, the entries of the other columns are live with their options
/// whole as far as purifying goes, the entries `es[k..]` are live with
/// their options whole, and no entry left in another column shares an
/// option with a live entry of `es[..k]`.
pub open spec fn pur_ok(t: LinksV, act: Set<int>, cols: Seq<Seq<int>>, j: int, es: Seq<int>, k: int) -> bool {
    &&& t.wf()
    &&& t.net.colored
    &&& act.contains(j)
    &&& cols[j] == es
    &&& 0 <= k <= es.len()
    &&& forall|c: int| #[trigger] act.contains(c) ==> t.net.is_hdr(c) && c < cols.len() && column(t.net, c, cols[c])
    &&& forall|c: int, m: int|
        #![trigger cols[c][m]]
        act.contains(c) && c != j && 0 <= m < cols[c].len() ==> live(t.net, cols[c][m]) && whole_pur(
            t.net,
            act,
            cols,
            j,
            es,
            k,
            cols[c][m],
        )
    &&& forall|h: int| #![trigger es[h]] k <= h < es.len() ==> whole(t.net, act, cols, es[h]) && live(t.net, es[h])
    &&& forall|c: int, m: int, h: int|
        #![trigger cols[c][m], es[h]]
        act.contains(c) && c != j && 0 <= m < cols[c].len() && 0 <= h < k && live(t.net, es[h]) ==> !same_option(
            t.net,
            es[h],
            cols[c][m],
        )
}

/// Marking entry `es[k]`, of the purified color, keeps the purification
/// consistent, one entry further.
#[verifier::spinoff_prover]
#[verifier::rlimit(40)]
proof fn lemma_pur_mark(t: LinksV, act: Set<int>, cols: Seq<Seq<int>>, j: int, es: Seq<int>, k: int)
    requires
        pur_ok(t, act, cols, j, es, k),
        k < es.len(),
    ensures
        pur_ok(t.set_color(es[k], -1isize), act, cols, j, es, k + 1),
        t.set_color(es[k], -1isize).net.same_frame(t.net),
        t.set_color(es[k], -1isize).net.left == t.net.left,
        t.set_color(es[k], -1isize).net.right == t.net.right,
{
    let q0 = es[k];
    let t2 = t.set_color(q0, -1isize);
    assert(column(t.net, j, es));
    assert(t.net.is_opt(q0) && t.net.hdr[q0] == j);
    lemma_col_facts(t.net, q0);
    lemma_color_wf(t, q0, -1isize);
    assert(!live(t2.net, q0));
    assert forall|x: int| 0 <= x < t.net.color.len() && x != q0 implies #[trigger] live(t2.net, x) == live(t.net, x) by {}
    assert forall|c: int| #[trigger] act.contains(c) implies t2.net.is_hdr(c) && c < cols.len() && column(
        t2.net,
        c,
        cols[c],
    ) by {
        assert(column(t.net, c, cols[c]));
    }
    assert forall|c: int, m: int| #![trigger cols[c][m]] act.contains(c) && c != j && 0 <= m < cols[c].len() implies live(
        t2.net,
        cols[c][m],
    ) && whole_pur(t2.net, act, cols, j, es, k + 1, cols[c][m]) by {
        let e = cols[c][m];
        assert(live(t.net, e) && whole_pur(t.net, act, cols, j, es, k, e));
        assert(column(t.net, c, cols[c]));
        assert(t.net.is_opt(e) && t.net.hdr[e] == c);
        assert(e != q0);
        assert forall|q: int| #[trigger] same_option(t2.net, e, q) && t2.net.is_opt(q) && q != e implies {
            &&& t2.net.hdr[q] != t2.net.hdr[e]
            &&& t2.net.hdr[q] != j && live(t2.net, q) ==> act.contains(t2.net.hdr[q] as int)
                && cols[t2.net.hdr[q] as int].contains(q)
            &&& t2.net.hdr[q] != j && !live(t2.net, q) ==> !act.contains(t2.net.hdr[q] as int)
            &&& t2.net.hdr[q] == j && live(t2.net, q) ==> es.subrange(k + 1, es.len() as int).contains(q)
        } by {
            assert(same_option(t.net, e, q));
            if t2.net.hdr[q] == j && live(t2.net, q) {
                assert(q != q0);
                assert(es.subrange(k, es.len() as int).contains(q));
                let h = choose|h: int| 0 <= h < es.len() - k && es.subrange(k, es.len() as int)[h] == q;
                assert(es[k + h] == q);
                assert(h != 0);
                assert(es.subrange(k + 1, es.len() as int)[h - 1] == q);
            }
        }
    }
    assert forall|h: int| #![trigger es[h]] k + 1 <= h < es.len() implies whole(t2.net, act, cols, es[h]) && live(
        t2.net,
        es[h],
    ) by {
        let e = es[h];
        assert(whole(t.net, act, cols, es[h]) && live(t.net, es[h]));
        assert(es[h] != es[k]);
        assert(t.net.is_opt(e) && t.net.hdr[e] == j);
        assert forall|q: int| #[trigger] same_option(t2.net, e, q) && t2.net.is_opt(q) && q != e implies {
            &&& t2.net.hdr[q] != t2.net.hdr[e]
            &&& live(t2.net, q) ==> act.contains(t2.net.hdr[q] as int) && cols[t2.net.hdr[q] as int].contains(q)
            &&& !live(t2.net, q) ==> !act.contains(t2.net.hdr[q] as int)
        } by {
            assert(same_option(t.net, e, q));
            assert(q != q0);
        }
    }
    assert forall|c: int, m: int, h: int|
        #![trigger cols[c][m], es[h]]
        act.contains(c) && c != j && 0 <= m < cols[c].len() && 0 <= h < k + 1 && live(t2.net, es[h]) implies !same_option(
        t2.net,
        es[h],
        cols[c][m],
    ) by {
        if h < k {
            assert(es[h] != q0);
            assert(!same_option(t.net, es[h], cols[c][m]));
        }
    }
}

/// What hiding the option of `es[k]` while purifying needs of the hidden
/// entries: each is a live entry of another item of `act`, in its column's
/// list, and no two are entries of the same item.
proof fn lemma_pur_hidden(t: LinksV, act: Set<int>, cols: Seq<Seq<int>>, j: int, es: Seq<int>, k: int, f: int, l: int)
    requires
        pur_ok(t, act, cols, j, es, k),
        k < es.len(),
        span(t.net, f, l),
        f <= es[k] <= l,
        forall|y: int| f <= y <= l ==> same_option(t.net, es[k], y),
    ensures
        ({
            let hs = hidden_entries(t, es[k], f, l, t.net.colored);
            &&& forall|m: int|
                0 <= m < hs.len() ==> t.net.is_opt(#[trigger] hs[m]) && act.contains(t.net.hdr[hs[m]] as int)
                    && cols[t.net.hdr[hs[m]] as int].contains(hs[m]) && t.net.hdr[hs[m]] != j
            &&& forall|a: int, b: int|
                0 <= a < b < hs.len() ==> #[trigger] t.net.hdr[hs[a]] != #[trigger] t.net.hdr[hs[b]]
        }),
{
    let p = es[k];
    lemma_hidden_facts(t, p, f, l, t.net.colored);
    let hs = hidden_entries(t, p, f, l, t.net.colored);
    assert(whole(t.net, act, cols, es[k]));
    assert(column(t.net, j, es));
    assert(t.net.is_opt(p) && t.net.hdr[p] == j);
    assert forall|m: int| 0 <= m < hs.len() implies t.net.is_opt(#[trigger] hs[m]) && act.contains(
        t.net.hdr[hs[m]] as int,
    ) && cols[t.net.hdr[hs[m]] as int].contains(hs[m]) && t.net.hdr[hs[m]] != j by {
        assert(same_option(t.net, p, hs[m]));
        assert(t.active(hs[m], t.net.colored));
        assert(live(t.net, hs[m]));
    }
    assert forall|a: int, b: int| 0 <= a < b < hs.len() implies #[trigger] t.net.hdr[hs[a]]
        != #[trigger] t.net.hdr[hs[b]] by {
        let ha = hs[a];
        let hb = hs[b];
        let ca = t.net.hdr[ha] as int;
        assert(t.net.is_opt(ha) && act.contains(ca) && cols[ca].contains(ha) && ca != j);
        let m = choose|m: int| 0 <= m < cols[ca].len() && cols[ca][m] == ha;
        assert(whole_pur(t.net, act, cols, j, es, k, cols[ca][m]));
        assert(same_option(t.net, p, ha) && same_option(t.net, p, hb));
        lemma_same_option_trans(t.net, p, ha, hb);
        assert(t.net.is_opt(hb));
    }
}

/// Hiding the option of `es[k]` while purifying, for one entry `r[c][m]`
/// of another column that is left.
proof fn lemma_pur_other(
    t: LinksV,
    t2: LinksV,
    act: Set<int>,
    cols: Seq<Seq<int>>,
    r: Seq<Seq<int>>,
    j: int,
    es: Seq<int>,
    k: int,
    f: int,
    l: int,
    c: int,
    m: int,
)
    requires
        pur_ok(t, act, cols, j, es, k),
        k < es.len(),
        t2.net.same_frame(t.net),
        t2.net.color == t.net.color,
        span(t.net, f, l),
        f <= es[k] <= l,
        forall|y: int| f <= y <= l ==> same_option(t.net, es[k], y),
        forall|c: int, x: int|
            act.contains(c) ==> (#[trigger] r[c].contains(x) <==> cols[c].contains(x)
                && !hidden_entries(t, es[k], f, l, t.net.colored).contains(x)),
        act.contains(c),
        c != j,
        0 <= m < r[c].len(),
    ensures
        live(t2.net, r[c][m]),
        whole_pur(t2.net, act, r, j, es, k + 1, r[c][m]),
        forall|h: int| 0 <= h < k + 1 && live(t2.net, es[h]) ==> !same_option(t2.net, #[trigger] es[h], r[c][m]),
{
    let p = es[k];
    let e = r[c][m];
    let hs = hidden_entries(t, p, f, l, t.net.colored);
    lemma_hidden_facts(t, p, f, l, t.net.colored);
    assert(r[c].contains(e));
    assert(cols[c].contains(e) && !hs.contains(e));
    let m0 = choose|m0: int| 0 <= m0 < cols[c].len() && cols[c][m0] == e;
    assert(live(t.net, cols[c][m0]) && whole_pur(t.net, act, cols, j, es, k, cols[c][m0]));
    assert(column(t.net, c, cols[c]));
    assert(t.net.is_opt(e) && t.net.hdr[e] == c);
    assert(column(t.net, j, es));
    assert(t.net.is_opt(p) && t.net.hdr[p] == j);
    assert(live(t2.net, e) == live(t.net, e));
    if same_option(t.net, p, e) {
        if e < f {
            assert(t.net.hdr[f - 1] > 0);
        } else if e > l {
            assert(t.net.hdr[l + 1] > 0);
        }
        lemma_hidden_all(t, p, f, l, e);
    }
    assert forall|q: int| #[trigger] same_option(t2.net, e, q) && t2.net.is_opt(q) && q != e implies {
        &&& t2.net.hdr[q] != t2.net.hdr[e]
        &&& t2.net.hdr[q] != j && live(t2.net, q) ==> act.contains(t2.net.hdr[q] as int) && r[t2.net.hdr[q] as int].contains(q)
        &&& t2.net.hdr[q] != j && !live(t2.net, q) ==> !act.contains(t2.net.hdr[q] as int)
        &&& t2.net.hdr[q] == j && live(t2.net, q) ==> es.subrange(k + 1, es.len() as int).contains(q)
    } by {
        assert(live(t2.net, q) == live(t.net, q));
        assert(t2.net.hdr[q] == t.net.hdr[q]);
        assert(t2.net.hdr[e] == t.net.hdr[e]);
        lemma_same_option_frame(t.net, t2.net, e, q);
        assert(same_option(t.net, e, q));
        assert(t.net.is_opt(q));
        if hs.contains(q) {
            let x = choose|x: int| 0 <= x < hs.len() && hs[x] == q;
            assert(same_option(t.net, p, hs[x]));
            assert(same_option(t.net, q, p));
            assert(same_option(t.net, q, e));
            lemma_same_option_trans(t.net, q, p, e);
        }
        if t.net.hdr[q] == j && live(t.net, q) {
            assert(es.subrange(k, es.len() as int).contains(q));
            let h = choose|h: int| 0 <= h < es.len() - k && es.subrange(k, es.len() as int)[h] == q;
            assert(es[k + h] == q);
            if h == 0 {
                assert(same_option(t.net, q, e));
                assert(same_option(t.net, e, p));
                assert(false);
            }
            assert(es.subrange(k + 1, es.len() as int)[h - 1] == q);
        }
    }
    assert forall|h: int| 0 <= h < k + 1 && live(t2.net, es[h]) implies !same_option(t2.net, #[trigger] es[h], e) by {
        assert(t.net.is_opt(es[h]));
        lemma_same_option_frame(t.net, t2.net, es[h], e);
        assert(live(t2.net, es[h]) == live(t.net, es[h]));
        if h < k {
            assert(!same_option(t.net, es[h], cols[c][m0]));
        }
    }
}

/// Hiding the option of `es[k]`, of another color, keeps the
/// purification consistent, one entry further.
#[verifier::spinoff_prover]
#[verifier::rlimit(40)]
proof fn lemma_pur_hide(t: LinksV, act: Set<int>, cols: Seq<Seq<int>>, j: int, es: Seq<int>, k: int) -> (r: Seq<
    Seq<int>,
>)
    requires
        pur_ok(t, act, cols, j, es, k),
        k < es.len(),
    ensures
        pur_ok(t.hide_with(es[k], true), act, r, j, es, k + 1),
        forall|c: int, x: int| act.contains(c) && #[trigger] r[c].contains(x) ==> cols[c].contains(x),
        t.hide_with(es[k], true).net.same_frame(t.net),
        t.hide_with(es[k], true).net.left == t.net.left,
        t.hide_with(es[k], true).net.right == t.net.right,
{
    let p = es[k];
    assert(act.contains(j));
    assert(column(t.net, j, es));
    assert(t.net.is_opt(p) && t.net.hdr[p] == j);
    let (f, l) = lemma_option_span(t.net, p);
    lemma_hide_with(t, p, f, l, true);
    let hs = hidden_entries(t, p, f, l, t.net.colored);
    let t2 = t.hide_with(p, true);
    assert(t2 == unlink_all(t, hs));
    lemma_pur_hidden(t, act, cols, j, es, k, f, l);
    let r = lemma_unlink_seq(t, hs, act, cols, j);
    lemma_unlink_all_wf(t, hs);
    lemma_unlink_all_outside(t, hs, j, j);
    assert forall|c: int, m: int| #![trigger r[c][m]] act.contains(c) && c != j && 0 <= m < r[c].len() implies live(
        t2.net,
        r[c][m],
    ) && whole_pur(t2.net, act, r, j, es, k + 1, r[c][m]) by {
        lemma_pur_other(t, t2, act, cols, r, j, es, k, f, l, c, m);
    }
    assert forall|h: int| #![trigger es[h]] k + 1 <= h < es.len() implies whole(t2.net, act, r, es[h]) && live(
        t2.net,
        es[h],
    ) by {
        let e = es[h];
        assert(whole(t.net, act, cols, es[h]) && live(t.net, es[h]));
        assert(t.net.is_opt(e) && t.net.hdr[e] == j);
        assert(e != p);
        if hs.contains(e) {
            let x = choose|x: int| 0 <= x < hs.len() && hs[x] == e;
            assert(t.net.hdr[hs[x]] != j);
        }
        lemma_whole_after(t, t2, p, f, l, act, cols, r, e);
        assert(live(t2.net, e) == live(t.net, e));
    }
    assert(t2.wf());
    assert(r[j] == es);
    assert forall|c: int| #[trigger] act.contains(c) implies t2.net.is_hdr(c) && c < r.len() && column(
        t2.net,
        c,
        r[c],
    ) by {}
    assert forall|c: int, m: int, h: int|
        #![trigger r[c][m], es[h]]
        act.contains(c) && c != j && 0 <= m < r[c].len() && 0 <= h < k + 1 && live(t2.net, es[h]) implies !same_option(
        t2.net,
        es[h],
        r[c][m],
    ) by {
        lemma_pur_other(t, t2, act, cols, r, j, es, k, f, l, c, m);
    }
    r
}

/// Purifying the first `k` entries of the column of `j` for color `c`
/// keeps the purification consistent.
proof fn lemma_pur_all(s: LinksV, act: Set<int>, cols: Seq<Seq<int>>, j: int, c: Data, k: int) -> (r: Seq<Seq<int>>)
    requires
        consistent(s, act, cols),
        s.net.colored,
        act.contains(j),
        0 <= k <= cols[j].len(),
    ensures
        pur_ok(pur(s, cols[j], c, k), act, r, j, cols[j], k),
        forall|x: int, y: int| act.contains(x) && #[trigger] r[x].contains(y) ==> cols[x].contains(y),
        pur(s, cols[j], c, k).net.same_frame(s.net),
        pur(s, cols[j], c, k).net.left == s.net.left,
        pur(s, cols[j], c, k).net.right == s.net.right,
    decreases k,
{
    let es = cols[j];
    if k == 0 {
        assert(s.net.same_frame(s.net));
        assert(es.subrange(0, es.len() as int) =~= es);
        assert forall|x: int, m: int| #![trigger cols[x][m]] act.contains(x) && x != j && 0 <= m < cols[x].len() implies live(
            s.net,
            cols[x][m],
        ) && whole_pur(s.net, act, cols, j, es, 0, cols[x][m]) by {
            assert(live(s.net, cols[x][m]));
            assert(whole(s.net, act, cols, cols[x][m]));
        }
        assert forall|h: int| #![trigger es[h]] 0 <= h < es.len() implies whole(s.net, act, cols, es[h]) && live(
            s.net,
            es[h],
        ) by {
            assert(whole(s.net, act, cols, cols[j][h]));
            assert(live(s.net, cols[j][h]));
        }
        cols
    } else {
        let r0 = lemma_pur_all(s, act, cols, j, c, k - 1);
        let t = pur(s, es, c, k - 1);
        let q = es[k - 1];
        if t.net.color[q] == c {
            lemma_pur_mark(t, act, r0, j, es, k - 1);
            lemma_frame_trans(t.set_color(q, -1isize).net, t.net, s.net);
            r0
        } else {
            let r = lemma_pur_hide(t, act, r0, j, es, k - 1);
            lemma_frame_trans(t.hide_with(q, true).net, t.net, s.net);
            assert forall|x: int, y: int| act.contains(x) && #[trigger] r[x].contains(y) implies cols[x].contains(y) by {
                assert(r0[x].contains(y));
            }
            r
        }
    }
}

/// Purifying an entry of a consistent state of a problem with colors gives
/// a consistent state, with the item of that entry no longer to cover.
pub proof fn law_purify_consistent(s: LinksV, act: Set<int>, cols: Seq<Seq<int>>, p: int) -> (r: Seq<Seq<int>>)
    requires
        consistent(s, act, cols),
        s.net.colored,
        s.net.is_opt(p),
        act.contains(s.net.hdr[p] as int),
    ensures
        consistent(s.purify(p), act.remove(s.net.hdr[p] as int), r),
        s.purify(p).net.same_frame(s.net),
        forall|c: int, x: int| act.remove(s.net.hdr[p] as int).contains(c) && #[trigger] r[c].contains(x) ==> cols[c].contains(x),
        forall|x: int|
            0 <= x < s.net.color.len() && #[trigger] s.purify(p).net.color[x] != s.net.color[x] ==> s.net.is_opt(x)
                && s.net.hdr[x] == s.net.hdr[p] && s.purify(p).net.color[x] == -1 && s.net.color[x]
                == s.net.color[p],
        s.purify(p).net.left == s.net.left,
        s.purify(p).net.right == s.net.right,
{
    let j = s.net.hdr[p] as int;
    let c = s.net.color[p];
    let es = cols[j];
    let n = s.net.n();
    lemma_consistent_cover_ok(s, act, cols, j);
    lemma_purify_walk(s, j, es, c, 0, n as nat);
    let r = lemma_pur_all(s, act, cols, j, c, es.len() as int);
    let t = pur(s, es, c, es.len() as int);
    assert(s.purify(p) == t);
    lemma_pur(s, j, es, c, es.len() as int);
    assert forall|x: int| 0 <= x < s.net.color.len() && #[trigger] t.net.color[x] != s.net.color[x] implies s.net.is_opt(x)
        && s.net.hdr[x] == j && t.net.color[x] == -1 && s.net.color[x] == c by {
        if forall|m: int| 0 <= m < es.len() ==> #[trigger] es[m] != x {
        } else {
            let m = choose|m: int| 0 <= m < es.len() && es[m] == x;
            assert(column(s.net, j, es));
            assert(s.net.is_opt(es[m]) && s.net.hdr[es[m]] == j);
            assert(t.net.color[es[m]] == (if s.net.color[es[m]] == c {
                -1isize
            } else {
                s.net.color[es[m]]
            }));
        }
    }
    let act2 = act.remove(j);
    assert(es.subrange(es.len() as int, es.len() as int) =~= Seq::<int>::empty());
    assert forall|x: int| #[trigger] act2.contains(x) implies t.net.is_hdr(x) && x < r.len() && column(
        t.net,
        x,
        r[x],
    ) && item_linked(t.net, x) by {
        assert(act.contains(x));
        assert(item_linked(s.net, x));
    }
    assert forall|x: int, m: int| act2.contains(x) && 0 <= m < r[x].len() implies #[trigger] live(t.net, r[x][m]) by {
        assert(act.contains(x) && x != j);
        assert(live(t.net, r[x][m]));
    }
    assert forall|x: int, m: int| act2.contains(x) && 0 <= m < r[x].len() implies #[trigger] whole(
        t.net,
        act2,
        r,
        r[x][m],
    ) by {
        let e = r[x][m];
        assert(act.contains(x) && x != j);
        assert(whole_pur(t.net, act, r, j, es, es.len() as int, r[x][m]));
        assert forall|q: int| #[trigger] same_option(t.net, e, q) && t.net.is_opt(q) && q != e implies {
            &&& t.net.hdr[q] != t.net.hdr[e]
            &&& live(t.net, q) ==> act2.contains(t.net.hdr[q] as int) && r[t.net.hdr[q] as int].contains(q)
            &&& !live(t.net, q) ==> !act2.contains(t.net.hdr[q] as int)
        } by {
            if t.net.hdr[q] == j && live(t.net, q) {
                assert(es.subrange(es.len() as int, es.len() as int).contains(q));
            }
        }
    }
    r
}

} // verus!
