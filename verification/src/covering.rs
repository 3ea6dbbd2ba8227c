//! Uncovering an item undoes covering it, and unpurifying an entry undoes
//! purifying it: both walk the item's column top to bottom, hiding options
//! (or marking entries), then bottom to top, unhiding them (or restoring
//! the colors), and the column itself is never touched in between.

use vstd::prelude::*;

use crate::hiding::{
    hidden_entries, law_unhide_hide, lemma_hidden_facts, lemma_hide_with, lemma_option_span,
    lemma_unlink_all_wf, same_option, unlink_all,
};
use crate::links::{
    item_linked, lemma_col_facts, lemma_color_wf, lemma_frame_trans, lemma_unlink_keeps_linked,
    lemma_unlink_wf, law_relink_item, linked, LinksV, Net,
};
use crate::Data;

verus! {

/// The entries of column `i` from top to bottom are `es`: the column is a
/// cycle through its header.
pub open spec fn column(s: Net, i: int, es: Seq<int>) -> bool {
    &&& s.is_hdr(i)
    &&& es.len() < s.n()
    &&& forall|j: int| 0 <= j < es.len() ==> s.is_opt(#[trigger] es[j]) && s.hdr[es[j]] == i
    &&& forall|a: int, b: int| 0 <= a < b < es.len() ==> #[trigger] es[a] != #[trigger] es[b]
    &&& s.down[i] == (if es.len() == 0 {
        i
    } else {
        es[0]
    })
    &&& s.up[i] == (if es.len() == 0 {
        i
    } else {
        es.last()
    })
    &&& forall|j: int|
        0 <= j < es.len() ==> s.down[#[trigger] es[j]] == (if j + 1 < es.len() {
            es[j + 1]
        } else {
            i
        })
    &&& forall|j: int|
        0 <= j < es.len() ==> s.up[#[trigger] es[j]] == (if j > 0 {
            es[j - 1]
        } else {
            i
        })
}

/// The options of the entries `es[from..]` of column `i` have no other
/// entry in that column, and their other active entries are linked.
pub open spec fn options_ok(s: LinksV, i: int, es: Seq<int>, from: int) -> bool {
    forall|j: int, q: int|
        0 <= from <= j < es.len() && #[trigger] same_option(s.net, es[j], q) && s.net.is_opt(q)
            && q != es[j] ==> s.net.hdr[q] != i && (s.active(q, s.net.colored) ==> linked(s.net, q))
}

/// The state after hiding the options of the first `j` entries of `es`.
pub open spec fn hid(s: LinksV, es: Seq<int>, j: int) -> LinksV
    decreases j,
{
    if j <= 0 {
        s
    } else {
        hid(s, es, j - 1).hide_option(es[j - 1])
    }
}

/// Two entries in the same option as a third are in the same option.
pub proof fn lemma_same_option_trans(s: Net, a: int, b: int, c: int)
    requires
        same_option(s, a, b),
        same_option(s, a, c),
    ensures
        same_option(s, b, c),
{
    assert forall|y: int| (b <= y <= c || c <= y <= b) implies #[trigger] s.hdr[y] > 0 by {
        if a <= y && y <= b || b <= y && y <= a {
            assert(same_option(s, a, b));
        } else {
            assert(c <= y <= a || a <= y <= c);
        }
    }
}

/// Whether two entries share an option does not change with the frame.
pub proof fn lemma_same_option_frame(s: Net, t: Net, a: int, b: int)
    requires
        t.same_frame(s),
        s.len + 2 <= a < s.n(),
        s.len + 2 <= b < s.n(),
    ensures
        same_option(t, a, b) == same_option(s, a, b),
{
    if same_option(s, a, b) {
        assert forall|y: int| (a <= y <= b || b <= y <= a) implies #[trigger] t.hdr[y] > 0 by {
            assert(s.hdr[y] > 0);
        }
    }
    if same_option(t, a, b) {
        assert forall|y: int| (a <= y <= b || b <= y <= a) implies #[trigger] s.hdr[y] > 0 by {
            assert(t.hdr[y] > 0);
        }
    }
}

/// Taking out an entry of another column leaves the links of column `i`
/// alone.
pub proof fn lemma_unlink_outside(s: Net, q: int, x: int, i: int)
    requires
        s.wf(),
        s.is_opt(q),
        s.hdr[q] != i,
        s.is_col(x),
        s.col_of(x) == i,
    ensures
        s.unlink(q).up[x] == s.up[x],
        s.unlink(q).down[x] == s.down[x],
{
    lemma_col_facts(s, q);
    lemma_col_facts(s, x);
}

/// Taking out entries of other columns leaves the links of column `i`
/// alone, and the horizontal links too.
pub proof fn lemma_unlink_all_outside(t: LinksV, hs: Seq<int>, x: int, i: int)
    requires
        t.wf(),
        forall|k: int| 0 <= k < hs.len() ==> t.net.is_opt(#[trigger] hs[k]) && t.net.hdr[hs[k]] != i,
        t.net.is_col(x),
        t.net.col_of(x) == i,
    ensures
        unlink_all(t, hs).net.up[x] == t.net.up[x],
        unlink_all(t, hs).net.down[x] == t.net.down[x],
        unlink_all(t, hs).net.left == t.net.left,
        unlink_all(t, hs).net.right == t.net.right,
    decreases hs.len(),
{
    if hs.len() > 0 {
        let h = hs[0];
        assert(t.net.is_opt(hs[0]) && t.net.hdr[hs[0]] != i);
        let t1 = t.unlink(h);
        lemma_unlink_wf(t.net, h);
        lemma_unlink_outside(t.net, h, x, i);
        crate::links::lemma_frame_cols(t.net, t1.net, x);
        let rest = hs.drop_first();
        assert forall|k: int| 0 <= k < rest.len() implies t1.net.is_opt(#[trigger] rest[k])
            && t1.net.hdr[rest[k]] != i by {
            assert(rest[k] == hs[k + 1]);
            assert(t.net.is_opt(hs[k + 1]) && t.net.hdr[hs[k + 1]] != i);
            assert(t1.net.hdr[hs[k + 1]] == t.net.hdr[hs[k + 1]]);
        }
        if t.net.is_opt(x) {
            assert(t1.net.hdr[x] == t.net.hdr[x]);
        }
        lemma_unlink_all_outside(t1, rest, x, i);
    }
}

/// Taking out linked entries keeps every other linked entry linked.
pub proof fn lemma_unlink_all_keeps_linked(t: LinksV, hs: Seq<int>, y: int)
    requires
        t.wf(),
        forall|k: int| 0 <= k < hs.len() ==> t.net.is_opt(#[trigger] hs[k]),
        forall|k: int| 0 <= k < hs.len() ==> linked(t.net, #[trigger] hs[k]),
        forall|a: int, b: int| 0 <= a < b < hs.len() ==> #[trigger] hs[a] != #[trigger] hs[b],
        forall|k: int| 0 <= k < hs.len() ==> #[trigger] hs[k] != y,
        t.net.is_col(y),
        linked(t.net, y),
    ensures
        linked(unlink_all(t, hs).net, y),
    decreases hs.len(),
{
    if hs.len() > 0 {
        let h = hs[0];
        assert(t.net.is_opt(hs[0]) && linked(t.net, hs[0]) && hs[0] != y);
        let t1 = t.unlink(h);
        let rest = hs.drop_first();
        lemma_unlink_wf(t.net, h);
        crate::links::lemma_frame_cols(t.net, t1.net, y);
        lemma_unlink_keeps_linked(t.net, h, y);
        assert forall|k: int| 0 <= k < rest.len() implies t1.net.is_opt(#[trigger] rest[k]) && linked(
            t1.net,
            rest[k],
        ) && rest[k] != y by {
            assert(rest[k] == hs[k + 1]);
            assert(hs[0] != hs[k + 1]);
            assert(t.net.is_opt(hs[k + 1]) && linked(t.net, hs[k + 1]) && hs[k + 1] != y);
            assert(t1.net.hdr[hs[k + 1]] == t.net.hdr[hs[k + 1]]);
            lemma_unlink_keeps_linked(t.net, h, hs[k + 1]);
        }
        assert forall|a: int, b: int| 0 <= a < b < rest.len() implies #[trigger] rest[a]
            != #[trigger] rest[b] by {
            assert(rest[a] == hs[a + 1] && rest[b] == hs[b + 1]);
        }
        lemma_unlink_all_keeps_linked(t1, rest, y);
    }
}

/// What hiding the options of the first `j` entries of column `i` keeps:
/// the well-formedness, the frame, the colors, the item list, the links of
/// column `i` and the conditions for the remaining options.
pub proof fn lemma_hid(s: LinksV, i: int, es: Seq<int>, j: int)
    requires
        s.wf(),
        column(s.net, i, es),
        options_ok(s, i, es, 0),
        0 <= j <= es.len(),
    ensures
        hid(s, es, j).wf(),
        hid(s, es, j).net.same_frame(s.net),
        hid(s, es, j).net.color == s.net.color,
        hid(s, es, j).net.left == s.net.left,
        hid(s, es, j).net.right == s.net.right,
        column(hid(s, es, j).net, i, es),
        options_ok(hid(s, es, j), i, es, j),
    decreases j,
{
    if j == 0 {
        assert(s.net.same_frame(s.net));
    } else {
        lemma_hid(s, i, es, j - 1);
        let t = hid(s, es, j - 1);
        let p = es[j - 1];
        let colored = t.net.colored;
        assert(t.net.is_opt(p));
        let (f, l) = lemma_option_span(t.net, p);
        lemma_hide_with(t, p, f, l, colored);
        lemma_hidden_facts(t, p, f, l, colored);
        let hs = hidden_entries(t, p, f, l, colored);
        let u = unlink_all(t, hs);
        assert(hid(s, es, j) == u);
        assert forall|k: int| 0 <= k < hs.len() implies t.net.is_opt(#[trigger] hs[k]) && t.net.hdr[hs[k]]
            != i && linked(t.net, hs[k]) by {
            let h = hs[k];
            assert(same_option(t.net, es[j - 1], h));
        }
        lemma_unlink_all_wf(t, hs);
        lemma_frame_trans(u.net, t.net, s.net);
        lemma_unlink_all_outside(t, hs, i, i);
        assert forall|m: int| 0 <= m < es.len() implies u.net.up[#[trigger] es[m]] == t.net.up[es[m]]
            && u.net.down[es[m]] == t.net.down[es[m]] by {
            assert(t.net.is_opt(es[m]) && t.net.hdr[es[m]] == i);
            lemma_unlink_all_outside(t, hs, es[m], i);
        }
        assert forall|m: int| 0 <= m < es.len() implies u.net.is_opt(#[trigger] es[m]) && u.net.hdr[es[m]]
            == i by {
            assert(t.net.is_opt(es[m]) && t.net.hdr[es[m]] == i);
            assert(u.net.hdr[es[m]] == t.net.hdr[es[m]]);
        }
        assert forall|m: int, q: int|
            0 <= j <= m < es.len() && #[trigger] same_option(u.net, es[m], q) && u.net.is_opt(q) && q
                != es[m] implies u.net.hdr[q] != i && (u.active(q, u.net.colored) ==> linked(
            u.net,
            q,
        )) by {
            assert(u.net.hdr[q] == t.net.hdr[q]);
            assert(t.net.is_opt(es[m]));
            lemma_same_option_frame(t.net, u.net, es[m], q);
            assert(t.net.is_opt(q));
            if u.active(q, u.net.colored) {
                assert(linked(t.net, q));
                assert forall|k: int| 0 <= k < hs.len() implies #[trigger] hs[k] != q by {
                    if hs[k] == q {
                        assert(same_option(t.net, p, q));
                        lemma_same_option_trans(t.net, q, p, es[m]);
                        assert(same_option(t.net, es[m], p)) by {
                            assert forall|y: int| (es[m] <= y <= p || p <= y <= es[m]) implies #[trigger] t.net.hdr[y] > 0 by {
                                assert(same_option(t.net, p, es[m]));
                            }
                        }
                        assert(es[m] != p);
                        assert(t.net.hdr[p] != i);
                    }
                }
                lemma_unlink_all_keeps_linked(t, hs, q);
            }
        }
    }
}

/// Covering walks down the column from entry `j`, hiding each option, and
/// ends after the last one.
pub proof fn lemma_cover_walk(s: LinksV, i: int, es: Seq<int>, j: int, fuel: nat)
    requires
        s.wf(),
        column(s.net, i, es),
        options_ok(s, i, es, 0),
        0 <= j <= es.len(),
        fuel >= es.len() - j,
    ensures
        hid(s, es, j).cover_walk(
            i,
            if j < es.len() {
                es[j]
            } else {
                i
            },
            fuel,
        ) == hid(s, es, es.len() as int),
    decreases es.len() - j,
{
    if j < es.len() {
        lemma_hid(s, i, es, j);
        lemma_hid(s, i, es, j + 1);
        let t = hid(s, es, j);
        assert(t.net.is_opt(es[j]));
        assert(es[j] != i);
        assert(hid(s, es, j + 1) == t.hide_option(es[j]));
        lemma_cover_walk(s, i, es, j + 1, (fuel - 1) as nat);
    }
}

/// Unhiding reads nothing but the node arrays.
pub proof fn lemma_unhide_net(t1: LinksV, t2: LinksV, p: int, q: int, n: int, colored: bool)
    requires
        t1.net == t2.net,
    ensures
        t1.unhide_from(p, q, n, colored).net == t2.unhide_from(p, q, n, colored).net,
    decreases (if q < p {
        n + q
    } else {
        q - p
    }),
{
    if q == p || q < 0 || q >= n || p >= n {
    } else if t1.net.hdr[q] <= 0 {
        if q < p && p <= t1.net.down[q] < n {
            lemma_unhide_net(t1, t2, p, t1.net.down[q] as int, n, colored);
        }
    } else {
        let n1 = if t1.active(q, colored) {
            t1.relink(q)
        } else {
            t1
        };
        let n2 = if t2.active(q, colored) {
            t2.relink(q)
        } else {
            t2
        };
        if q != 0 {
            lemma_unhide_net(n1, n2, p, q - 1, n, colored);
        }
    }
}

/// Uncovering walks up the column from entry `j - 1`, unhiding each option
/// hidden by covering, and gives back the node arrays from before.
proof fn lemma_uncover_walk(s: LinksV, i: int, es: Seq<int>, j: int, t: LinksV, fuel: nat)
    requires
        s.wf(),
        column(s.net, i, es),
        options_ok(s, i, es, 0),
        0 <= j <= es.len(),
        t.net == hid(s, es, j).net,
        fuel >= j,
    ensures
        t.uncover_walk(
            i,
            if j > 0 {
                es[j - 1]
            } else {
                i
            },
            fuel,
        ).net == s.net,
    decreases j,
{
    if j > 0 {
        lemma_hid(s, i, es, j - 1);
        lemma_hid(s, i, es, j);
        let prev = hid(s, es, j - 1);
        let cur = hid(s, es, j);
        let p = es[j - 1];
        let colored = prev.net.colored;
        assert(t.net.is_opt(p));
        assert(p != i);
        assert forall|q: int|
            #[trigger] prev.net.is_opt(q) && same_option(prev.net, p, q) && q != p && prev.active(
                q,
                colored,
            ) implies linked(prev.net, q) by {
            assert(same_option(prev.net, es[j - 1], q));
        }
        law_unhide_hide(prev, p, colored);
        assert(cur == prev.hide_with(p, colored));
        lemma_unhide_net(t, cur, p, p - 1, t.net.n(), colored);
        let t1 = t.unhide(p);
        assert(t1.net == prev.net);
        lemma_uncover_walk(s, i, es, j - 1, t1, (fuel - 1) as nat);
    }
}

/// Uncovering an item undoes covering it: when the column of `i` is a
/// cycle through its header, no option in it has another entry in that
/// column, the other active entries of these options are linked and `i`
/// is linked in its list, covering `i` and then uncovering it gives back
/// the same links and column lengths.
pub proof fn law_uncover_cover(s: LinksV, i: int, es: Seq<int>)
    requires
        s.wf(),
        column(s.net, i, es),
        options_ok(s, i, es, 0),
        item_linked(s.net, i),
    ensures
        s.cover(i).uncover(i).net == s.net,
{
    let k = es.len() as int;
    let n = s.net.n();
    lemma_cover_walk(s, i, es, 0, n as nat);
    lemma_hid(s, i, es, k);
    let sk = hid(s, es, k);
    let c = s.cover(i);
    assert(c.net == sk.net.unlink_item(i));
    law_relink_item(sk.net, i);
    let t0 = LinksV { net: c.net.relink_item(i), ..c };
    assert(t0.net == sk.net);
    lemma_uncover_walk(s, i, es, k, t0, n as nat);
}


/// Without colors, uncommitting an item undoes committing it: committing
/// covers the item, under the conditions of [`law_uncover_cover`].
pub proof fn law_uncommit_commit(s: LinksV, p: int, j: int, es: Seq<int>)
    requires
        s.wf(),
        !s.net.colored,
        column(s.net, j, es),
        options_ok(s, j, es, 0),
        item_linked(s.net, j),
    ensures
        s.commit(p, j).uncommit(p, j).net == s.net,
{
    lemma_cover_walk(s, j, es, 0, s.net.n() as nat);
    lemma_hid(s, j, es, es.len() as int);
    law_uncover_cover(s, j, es);
}


/// The state after purifying the first `j` entries of `es` for color `c`:
/// each entry of color `c` is marked (color `-1`), the option of each other
/// entry is hidden.
pub open spec fn pur(s: LinksV, es: Seq<int>, c: Data, j: int) -> LinksV
    decreases j,
{
    if j <= 0 {
        s
    } else {
        let t = pur(s, es, c, j - 1);
        let q = es[j - 1];
        if t.net.color[q] == c {
            t.set_color(q, -1isize)
        } else {
            t.hide_with(q, true)
        }
    }
}

/// What purifying the first `j` entries of column `i` keeps: the
/// well-formedness, the frame, the item list, the links of column `i`, the
/// colors other than the marked ones, and the conditions for the remaining
/// options.
pub proof fn lemma_pur(s: LinksV, i: int, es: Seq<int>, c: Data, j: int)
    requires
        s.wf(),
        s.net.colored,
        column(s.net, i, es),
        options_ok(s, i, es, 0),
        0 <= j <= es.len(),
    ensures
        pur(s, es, c, j).wf(),
        pur(s, es, c, j).net.same_frame(s.net),
        pur(s, es, c, j).net.left == s.net.left,
        pur(s, es, c, j).net.right == s.net.right,
        pur(s, es, c, j).net.color.len() == s.net.color.len(),
        column(pur(s, es, c, j).net, i, es),
        options_ok(pur(s, es, c, j), i, es, j),
        forall|x: int|
            0 <= x < s.net.color.len() && (forall|m: int| 0 <= m < j ==> #[trigger] es[m] != x)
                ==> #[trigger] pur(s, es, c, j).net.color[x] == s.net.color[x],
        forall|m: int|
            0 <= m < j ==> #[trigger] pur(s, es, c, j).net.color[es[m]] == (if s.net.color[es[m]]
                == c {
                -1isize
            } else {
                s.net.color[es[m]]
            }),
    decreases j,
{
    if j == 0 {
        assert(s.net.same_frame(s.net));
    } else {
        lemma_pur(s, i, es, c, j - 1);
        let t = pur(s, es, c, j - 1);
        let q = es[j - 1];
        assert(t.net.is_opt(q) && t.net.hdr[q] == i);
        assert(t.net.color[q] == s.net.color[q]) by {
            assert forall|m: int| 0 <= m < j - 1 implies #[trigger] es[m] != q by {
                assert(es[m] != es[j - 1]);
            }
            lemma_col_facts(s.net, q);
        }
        let u = pur(s, es, c, j);
        if t.net.color[q] == c {
            assert(u == t.set_color(q, -1isize));
            lemma_col_facts(t.net, q);
            lemma_color_wf(t, q, -1isize);
            lemma_frame_trans(u.net, t.net, s.net);
            assert forall|m: int| 0 <= m < es.len() implies u.net.is_opt(#[trigger] es[m]) && u.net.hdr[es[m]]
                == i by {
                assert(t.net.is_opt(es[m]) && t.net.hdr[es[m]] == i);
            }
            assert forall|m: int, x: int|
                0 <= j <= m < es.len() && #[trigger] same_option(u.net, es[m], x) && u.net.is_opt(x) && x
                    != es[m] implies u.net.hdr[x] != i && (u.active(x, u.net.colored) ==> linked(
                u.net,
                x,
            )) by {
                assert(same_option(t.net, es[m], x));
                assert(t.net.is_opt(x));
                if x == q {
                    assert(t.net.hdr[x] == i);
                }
            }
            assert forall|x: int|
                0 <= x < s.net.color.len() && (forall|m: int| 0 <= m < j ==> #[trigger] es[m] != x)
                    implies #[trigger] u.net.color[x] == s.net.color[x] by {
                assert(es[j - 1] != x);
                assert forall|m: int| 0 <= m < j - 1 implies #[trigger] es[m] != x by {
                    assert(es[m] != x);
                }
            }
            assert forall|m: int| 0 <= m < j implies #[trigger] u.net.color[es[m]] == (if s.net.color[es[m]]
                == c {
                -1isize
            } else {
                s.net.color[es[m]]
            }) by {
                if m < j - 1 {
                    assert(es[m] != es[j - 1]);
                }
            }
        } else {
            let colored = true;
            assert(u == t.hide_with(q, colored));
            let (f, l) = lemma_option_span(t.net, q);
            lemma_hide_with(t, q, f, l, colored);
            lemma_hidden_facts(t, q, f, l, colored);
            let hs = hidden_entries(t, q, f, l, colored);
            assert(u == unlink_all(t, hs));
            assert forall|k: int| 0 <= k < hs.len() implies t.net.is_opt(#[trigger] hs[k]) && t.net.hdr[hs[k]]
                != i && linked(t.net, hs[k]) by {
                let h = hs[k];
                assert(same_option(t.net, es[j - 1], h));
            }
            lemma_unlink_all_wf(t, hs);
            lemma_frame_trans(u.net, t.net, s.net);
            lemma_unlink_all_outside(t, hs, i, i);
            assert forall|m: int| 0 <= m < es.len() implies u.net.up[#[trigger] es[m]] == t.net.up[es[m]]
                && u.net.down[es[m]] == t.net.down[es[m]] by {
                assert(t.net.is_opt(es[m]) && t.net.hdr[es[m]] == i);
                lemma_unlink_all_outside(t, hs, es[m], i);
            }
            assert forall|m: int| 0 <= m < es.len() implies u.net.is_opt(#[trigger] es[m]) && u.net.hdr[es[m]]
                == i by {
                assert(t.net.is_opt(es[m]) && t.net.hdr[es[m]] == i);
                assert(u.net.hdr[es[m]] == t.net.hdr[es[m]]);
            }
            assert forall|m: int, x: int|
                0 <= j <= m < es.len() && #[trigger] same_option(u.net, es[m], x) && u.net.is_opt(x) && x
                    != es[m] implies u.net.hdr[x] != i && (u.active(x, u.net.colored) ==> linked(
                u.net,
                x,
            )) by {
                assert(u.net.hdr[x] == t.net.hdr[x]);
                assert(t.net.is_opt(es[m]));
                lemma_same_option_frame(t.net, u.net, es[m], x);
                assert(t.net.is_opt(x));
                if u.active(x, u.net.colored) {
                    assert(linked(t.net, x));
                    assert forall|k: int| 0 <= k < hs.len() implies #[trigger] hs[k] != x by {
                        if hs[k] == x {
                            assert(same_option(t.net, q, x));
                            lemma_same_option_trans(t.net, x, q, es[m]);
                            assert(same_option(t.net, es[m], q)) by {
                                assert forall|y: int| (es[m] <= y <= q || q <= y <= es[m]) implies #[trigger] t.net.hdr[y] > 0 by {
                                    assert(same_option(t.net, q, es[m]));
                                }
                            }
                            assert(es[m] != q);
                            assert(t.net.hdr[q] != i);
                        }
                    }
                    lemma_unlink_all_keeps_linked(t, hs, x);
                }
            }
            assert forall|m: int| 0 <= m < j implies #[trigger] u.net.color[es[m]] == (if s.net.color[es[m]]
                == c {
                -1isize
            } else {
                s.net.color[es[m]]
            }) by {
                if m < j - 1 {
                    assert(es[m] != es[j - 1]);
                }
            }
        }
    }
}

/// Purifying walks down the column from entry `j` and ends after the last
/// one.
pub proof fn lemma_purify_walk(s: LinksV, i: int, es: Seq<int>, c: Data, j: int, fuel: nat)
    requires
        s.wf(),
        s.net.colored,
        column(s.net, i, es),
        options_ok(s, i, es, 0),
        0 <= j <= es.len(),
        fuel >= es.len() - j,
    ensures
        pur(s, es, c, j).purify_walk(
            c,
            i,
            if j < es.len() {
                es[j]
            } else {
                i
            },
            fuel,
        ) == pur(s, es, c, es.len() as int),
    decreases es.len() - j,
{
    if j < es.len() {
        lemma_pur(s, i, es, c, j);
        lemma_pur(s, i, es, c, j + 1);
        let t = pur(s, es, c, j);
        assert(t.net.is_opt(es[j]));
        assert(es[j] != i);
        lemma_purify_walk(s, i, es, c, j + 1, (fuel - 1) as nat);
    }
}

/// Unpurifying walks up the column from entry `j - 1`, restoring each mark
/// and unhiding each hidden option, and gives back the node arrays from
/// before purifying.
pub proof fn lemma_unpurify_walk(s: LinksV, i: int, es: Seq<int>, c: Data, j: int, t: LinksV, fuel: nat)
    requires
        s.wf(),
        s.net.colored,
        column(s.net, i, es),
        options_ok(s, i, es, 0),
        forall|m: int| 0 <= m < es.len() ==> s.net.color[#[trigger] es[m]] >= 0,
        0 <= j <= es.len(),
        t.net == pur(s, es, c, j).net,
        fuel >= j,
    ensures
        t.unpurify_walk(
            c,
            i,
            if j > 0 {
                es[j - 1]
            } else {
                i
            },
            fuel,
        ).net == s.net,
    decreases j,
{
    if j > 0 {
        lemma_pur(s, i, es, c, j - 1);
        lemma_pur(s, i, es, c, j);
        let prev = pur(s, es, c, j - 1);
        let cur = pur(s, es, c, j);
        let q = es[j - 1];
        assert(t.net.is_opt(q));
        assert(q != i);
        assert(prev.net.color[q] == s.net.color[q]) by {
            assert forall|m: int| 0 <= m < j - 1 implies #[trigger] es[m] != q by {
                assert(es[m] != es[j - 1]);
            }
            lemma_col_facts(s.net, q);
        }
        assert(s.net.color[q] >= 0);
        if prev.net.color[q] == c {
            assert(t.net.color[q] == -1);
            let t1 = t.set_color(q, c);
            assert(t1.net.color =~= prev.net.color);
            assert(t1.net == prev.net);
            lemma_unpurify_walk(s, i, es, c, j - 1, t1, (fuel - 1) as nat);
        } else {
            assert(t.net.color[q] == s.net.color[q]);
            assert forall|x: int|
                #[trigger] prev.net.is_opt(x) && same_option(prev.net, q, x) && x != q && prev.active(
                    x,
                    true,
                ) implies linked(prev.net, x) by {
                assert(same_option(prev.net, es[j - 1], x));
            }
            law_unhide_hide(prev, q, true);
            assert(cur == prev.hide_with(q, true));
            lemma_unhide_net(t, cur, q, q - 1, t.net.n(), true);
            let t1 = t.unhide_with(q, true);
            assert(t1.net == prev.net);
            lemma_unpurify_walk(s, i, es, c, j - 1, t1, (fuel - 1) as nat);
        }
    }
}

/// Unpurifying an entry undoes purifying it: when `p` (of color at least
/// 0) has left the column of its item, that column is a cycle through its
/// header whose entries have colors at least 0, no option in it has
/// another entry in that column and the other active entries of these
/// options are linked, purifying `p` and then unpurifying it gives back the
/// same links, column lengths and colors.
pub proof fn law_unpurify_purify(s: LinksV, p: int, es: Seq<int>)
    requires
        s.wf(),
        s.net.colored,
        s.net.is_opt(p),
        column(s.net, s.net.hdr[p] as int, es),
        options_ok(s, s.net.hdr[p] as int, es, 0),
        forall|m: int| 0 <= m < es.len() ==> #[trigger] es[m] != p,
        forall|m: int| 0 <= m < es.len() ==> s.net.color[#[trigger] es[m]] >= 0,
    ensures
        s.purify(p).unpurify(p).net == s.net,
{
    let i = s.net.hdr[p] as int;
    let c = s.net.color[p];
    let k = es.len() as int;
    let n = s.net.n();
    lemma_col_facts(s.net, p);
    lemma_purify_walk(s, i, es, c, 0, n as nat);
    lemma_pur(s, i, es, c, k);
    let t = s.purify(p);
    assert(t == pur(s, es, c, k));
    assert(t.net.hdr[p] == s.net.hdr[p]);
    assert(t.net.color[p] == c);
    lemma_unpurify_walk(s, i, es, c, k, t, n as nat);
}


/// With colors, uncommitting an entry undoes committing it: committing
/// covers the item of an entry without color and purifies an entry with a
/// color, under the conditions of [`law_uncover_cover`] and
/// [`law_unpurify_purify`].
pub proof fn law_uncommit_commit_colored(s: LinksV, p: int, es: Seq<int>)
    requires
        s.wf(),
        s.net.colored,
        s.net.is_opt(p),
        column(s.net, s.net.hdr[p] as int, es),
        options_ok(s, s.net.hdr[p] as int, es, 0),
        item_linked(s.net, s.net.hdr[p] as int),
        forall|m: int| 0 <= m < es.len() ==> #[trigger] es[m] != p,
        forall|m: int| 0 <= m < es.len() ==> s.net.color[#[trigger] es[m]] >= 0,
    ensures
        s.commit(p, s.net.hdr[p] as int).uncommit(p, s.net.hdr[p] as int).net == s.net,
{
    let j = s.net.hdr[p] as int;
    lemma_col_facts(s.net, p);
    if s.net.color[p] == 0 {
        lemma_cover_walk(s, j, es, 0, s.net.n() as nat);
        lemma_hid(s, j, es, es.len() as int);
        law_uncover_cover(s, j, es);
    } else if s.net.color[p] > 0 {
        let c = s.net.color[p];
        lemma_purify_walk(s, j, es, c, 0, s.net.n() as nat);
        lemma_pur(s, j, es, c, es.len() as int);
        law_unpurify_purify(s, p, es);
    }
}

} // verus!
