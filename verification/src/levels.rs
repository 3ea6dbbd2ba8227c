//! Consistent states of a problem: the items still to cover are linked in
//! their lists, each of their columns is a cycle of live entries, and the
//! options met in these columns are whole. Covering such an item keeps the
//! state consistent, so that any run of covers is undone by the uncovers
//! in the reverse order.

use vstd::prelude::*;

use crate::covering::{
    column, hid, law_uncover_cover, lemma_cover_walk, lemma_same_option_frame, lemma_same_option_trans,
    lemma_unhide_net, lemma_unlink_all_outside, options_ok,
};
use crate::fresh::lemma_column_linked;
use crate::hiding::{
    active_at, active_range, hidden_entries, lemma_hidden_facts, lemma_hide_with, lemma_option_span, lemma_span_frame,
    lemma_unlink_all_wf, same_option, span, unlink_all,
};
use crate::links::{
    item_linked, lemma_col_facts, lemma_frame_trans, lemma_item_wf, lemma_unlink_wf, linked, LinksV, Net,
};
use crate::Data;

verus! {

/// The `down` links walk from `c` through `l` and back to `c`.
pub open spec fn down_chain(down: Seq<usize>, c: int, l: Seq<int>) -> bool {
    &&& down[c] == (if l.len() == 0 {
        c
    } else {
        l[0]
    })
    &&& forall|j: int|
        0 <= j < l.len() ==> down[#[trigger] l[j]] == (if j + 1 < l.len() {
            l[j + 1]
        } else {
            c
        })
}

/// The `up` links walk from `c` back through `l` to `c`.
pub open spec fn up_chain(up: Seq<usize>, c: int, l: Seq<int>) -> bool {
    &&& up[c] == (if l.len() == 0 {
        c
    } else {
        l.last()
    })
    &&& forall|j: int|
        0 <= j < l.len() ==> up[#[trigger] l[j]] == (if j > 0 {
            l[j - 1]
        } else {
            c
        })
}

/// `l` holds distinct nodes of the array, none of them `c`.
pub open spec fn ring(n: int, c: int, l: Seq<int>) -> bool {
    &&& 0 <= c < n
    &&& forall|j: int| 0 <= j < l.len() ==> 0 <= #[trigger] l[j] < n && l[j] != c
    &&& forall|a: int, b: int| 0 <= a < b < l.len() ==> #[trigger] l[a] != #[trigger] l[b]
}

/// The neighbour before position `m` of the cycle.
pub open spec fn before(c: int, l: Seq<int>, m: int) -> int {
    if m > 0 {
        l[m - 1]
    } else {
        c
    }
}

/// The neighbour after position `m` of the cycle.
pub open spec fn after(c: int, l: Seq<int>, m: int) -> int {
    if m + 1 < l.len() {
        l[m + 1]
    } else {
        c
    }
}

/// Pointing the `down` link before position `m` past it takes `l[m]` out
/// of the walk.
pub proof fn lemma_down_remove(down: Seq<usize>, c: int, l: Seq<int>, m: int)
    requires
        ring(down.len() as int, c, l),
        down_chain(down, c, l),
        0 <= m < l.len(),
    ensures
        down_chain(down.update(before(c, l, m), after(c, l, m) as usize), c, l.remove(m)),
{
    let l2 = l.remove(m);
    let d2 = down.update(before(c, l, m), after(c, l, m) as usize);
    assert forall|j: int| 0 <= j < l2.len() implies d2[#[trigger] l2[j]] == (if j + 1 < l2.len() {
        l2[j + 1]
    } else {
        c
    }) by {
        if j < m - 1 {
            assert(l2[j] == l[j] && l2[j + 1] == l[j + 1]);
            assert(l[j] != l[m - 1]);
        } else if j == m - 1 {
            assert(l2[j] == l[m - 1]);
            if j + 1 < l2.len() {
                assert(l2[j + 1] == l[m + 1]);
            }
        } else {
            assert(l2[j] == l[j + 1]);
            if m > 0 {
                assert(l[j + 1] != l[m - 1]);
            }
            if j + 1 < l2.len() {
                assert(l2[j + 1] == l[j + 2]);
            }
        }
    }
    if m == 0 {
        if l2.len() > 0 {
            assert(l2[0] == l[1]);
        }
    } else {
        assert(l2[0] == l[0]);
    }
}

/// Pointing the `up` link after position `m` past it takes `l[m]` out of
/// the walk.
pub proof fn lemma_up_remove(up: Seq<usize>, c: int, l: Seq<int>, m: int)
    requires
        ring(up.len() as int, c, l),
        up_chain(up, c, l),
        0 <= m < l.len(),
    ensures
        up_chain(up.update(after(c, l, m), before(c, l, m) as usize), c, l.remove(m)),
{
    let l2 = l.remove(m);
    let u2 = up.update(after(c, l, m), before(c, l, m) as usize);
    assert forall|j: int| 0 <= j < l2.len() implies u2[#[trigger] l2[j]] == (if j > 0 {
        l2[j - 1]
    } else {
        c
    }) by {
        if j < m {
            assert(l2[j] == l[j]);
            if m + 1 < l.len() {
                assert(l[j] != l[m + 1]);
            }
            if j > 0 {
                assert(l2[j - 1] == l[j - 1]);
            }
        } else if j == m {
            assert(l2[j] == l[m + 1]);
            if j > 0 {
                assert(l2[j - 1] == l[m - 1]);
            }
        } else {
            assert(l2[j] == l[j + 1] && l2[j - 1] == l[j]);
            assert(l[j + 1] != l[m + 1]);
        }
    }
    if m + 1 == l.len() {
        if l2.len() > 0 {
            assert(l2.last() == l[m - 1]);
        }
    } else {
        assert(l2.last() == l.last());
    }
}

/// Removing position `m` keeps the entries distinct and in the array.
pub proof fn lemma_ring_remove(n: int, c: int, l: Seq<int>, m: int)
    requires
        ring(n, c, l),
        0 <= m < l.len(),
    ensures
        ring(n, c, l.remove(m)),
{
    let l2 = l.remove(m);
    assert forall|a: int, b: int| 0 <= a < b < l2.len() implies #[trigger] l2[a] != #[trigger] l2[b] by {
        if b < m {
            assert(l2[a] == l[a] && l2[b] == l[b]);
        } else if a >= m {
            assert(l2[a] == l[a + 1] && l2[b] == l[b + 1]);
        } else {
            assert(l2[a] == l[a] && l2[b] == l[b + 1]);
        }
    }
}

/// A column is a ring whose links walk it both ways.
proof fn lemma_column_chains(s: Net, c: int, l: Seq<int>)
    requires
        s.wf(),
        column(s, c, l),
    ensures
        ring(s.n(), c, l),
        down_chain(s.down, c, l),
        up_chain(s.up, c, l),
        s.down.len() == s.n(),
        s.up.len() == s.n(),
{
    lemma_col_facts(s, c);
    assert forall|j: int| 0 <= j < l.len() implies 0 <= #[trigger] l[j] < s.n() && l[j] != c by {
        assert(s.is_opt(l[j]));
    }
}

/// Taking entry `l[m]` out of its column removes it from the column's
/// cycle.
#[verifier::spinoff_prover]
pub proof fn lemma_column_remove(s: Net, c: int, l: Seq<int>, m: int)
    requires
        s.wf(),
        column(s, c, l),
        0 <= m < l.len(),
    ensures
        column(s.unlink(l[m]), c, l.remove(m)),
{
    let q = l[m];
    let t = s.unlink(q);
    let l2 = l.remove(m);
    assert(s.is_opt(q) && s.hdr[q] == c);
    lemma_column_chains(s, c, l);
    lemma_col_facts(s, q);
    assert(s.up[q] == before(c, l, m));
    assert(s.down[q] == after(c, l, m));
    lemma_down_remove(s.down, c, l, m);
    lemma_up_remove(s.up, c, l, m);
    lemma_ring_remove(s.n(), c, l, m);
    assert(t.down == s.down.update(before(c, l, m), after(c, l, m) as usize));
    assert(t.up == s.up.update(after(c, l, m), before(c, l, m) as usize));
    assert forall|j: int| 0 <= j < l2.len() implies t.is_opt(#[trigger] l2[j]) && t.hdr[l2[j]] == c by {
        if j < m {
            assert(l2[j] == l[j] && s.is_opt(l[j]));
        } else {
            assert(l2[j] == l[j + 1] && s.is_opt(l[j + 1]));
        }
    }
}

/// Taking an entry of another column out leaves the cycle of column `c`
/// as it is.
pub proof fn lemma_column_other(s: Net, c: int, l: Seq<int>, q: int)
    requires
        s.wf(),
        column(s, c, l),
        s.is_opt(q),
        s.hdr[q] != c,
    ensures
        column(s.unlink(q), c, l),
{
    let t = s.unlink(q);
    lemma_col_facts(s, q);
    let u = s.up[q] as int;
    let d = s.down[q] as int;
    lemma_col_facts(s, u);
    lemma_col_facts(s, d);
    assert forall|j: int| 0 <= j < l.len() implies t.is_opt(#[trigger] l[j]) && t.hdr[l[j]] == c && l[j]
        != u && l[j] != d by {
        assert(s.is_opt(l[j]) && s.hdr[l[j]] == c);
    }
    assert(c != u && c != d);
}

/// Removing position `m` of a list without repeats removes exactly the
/// entry there.
pub proof fn lemma_remove_contains(l: Seq<int>, m: int, x: int)
    requires
        0 <= m < l.len(),
        forall|a: int, b: int| 0 <= a < b < l.len() ==> #[trigger] l[a] != #[trigger] l[b],
    ensures
        l.remove(m).contains(x) <==> l.contains(x) && x != l[m],
{
    let l2 = l.remove(m);
    if l2.contains(x) {
        let j = choose|j: int| 0 <= j < l2.len() && l2[j] == x;
        if j < m {
            assert(l[j] == x);
        } else {
            assert(l[j + 1] == x);
        }
    }
    if l.contains(x) && x != l[m] {
        let j = choose|j: int| 0 <= j < l.len() && l[j] == x;
        if j < m {
            assert(l2[j] == x);
        } else {
            assert(l2[j - 1] == x);
        }
    }
}

/// Taking out entries of distinct columns, each listed in the column of
/// its item, takes each out of that list and leaves the columns cycles.
#[verifier::spinoff_prover]
#[verifier::rlimit(40)]
pub proof fn lemma_unlink_seq(t: LinksV, hs: Seq<int>, act: Set<int>, cols: Seq<Seq<int>>, keep: int) -> (r: Seq<
    Seq<int>,
>)
    requires
        0 <= keep < cols.len(),
        forall|k: int| 0 <= k < hs.len() ==> t.net.hdr[#[trigger] hs[k]] != keep,
        t.wf(),
        forall|c: int| #[trigger] act.contains(c) ==> c < cols.len() && column(t.net, c, cols[c]),
        forall|k: int|
            0 <= k < hs.len() ==> t.net.is_opt(#[trigger] hs[k]) && act.contains(t.net.hdr[hs[k]] as int)
                && cols[t.net.hdr[hs[k]] as int].contains(hs[k]),
        forall|a: int, b: int|
            0 <= a < b < hs.len() ==> #[trigger] t.net.hdr[hs[a]] != #[trigger] t.net.hdr[hs[b]],
    ensures
        r.len() == cols.len(),
        r[keep] == cols[keep],
        forall|c: int| #[trigger] act.contains(c) ==> column(unlink_all(t, hs).net, c, r[c]),
        forall|c: int, x: int|
            act.contains(c) ==> (#[trigger] r[c].contains(x) <==> cols[c].contains(x) && !hs.contains(x)),
    decreases hs.len(),
{
    if hs.len() == 0 {
        cols
    } else {
        let q = hs[0];
        let c0 = t.net.hdr[q] as int;
        assert(t.net.is_opt(hs[0]) && act.contains(c0) && cols[c0].contains(q));
        let m = choose|m: int| 0 <= m < cols[c0].len() && cols[c0][m] == q;
        let cols1 = cols.update(c0, cols[c0].remove(m));
        let t1 = t.unlink(q);
        lemma_unlink_wf(t.net, q);
        lemma_col_facts(t.net, q);
        assert forall|c: int| #[trigger] act.contains(c) implies c < cols1.len() && column(t1.net, c, cols1[c]) by {
            if c == c0 {
                lemma_column_remove(t.net, c0, cols[c0], m);
            } else {
                lemma_column_other(t.net, c, cols[c], q);
            }
        }
        let rest = hs.drop_first();
        assert forall|k: int| 0 <= k < rest.len() implies t1.net.is_opt(#[trigger] rest[k]) && act.contains(
            t1.net.hdr[rest[k]] as int,
        ) && cols1[t1.net.hdr[rest[k]] as int].contains(rest[k]) by {
            assert(rest[k] == hs[k + 1]);
            assert(t.net.hdr[hs[0]] != t.net.hdr[hs[k + 1]]);
            assert(t.net.is_opt(hs[k + 1]));
            assert(t1.net.hdr[hs[k + 1]] == t.net.hdr[hs[k + 1]]);
        }
        assert forall|k: int| 0 <= k < rest.len() implies t1.net.hdr[#[trigger] rest[k]] != keep by {
            assert(rest[k] == hs[k + 1]);
            assert(t.net.is_opt(hs[k + 1]));
        }
        assert(t.net.hdr[hs[0]] != keep);
        assert(cols1[keep] == cols[keep]);
        assert forall|a: int, b: int| 0 <= a < b < rest.len() implies #[trigger] t1.net.hdr[rest[a]]
            != #[trigger] t1.net.hdr[rest[b]] by {
            assert(rest[a] == hs[a + 1] && rest[b] == hs[b + 1]);
            assert(t.net.hdr[hs[a + 1]] != t.net.hdr[hs[b + 1]]);
            assert(t.net.is_opt(hs[a + 1]) && t.net.is_opt(hs[b + 1]));
        }
        let r = lemma_unlink_seq(t1, rest, act, cols1, keep);
        assert(unlink_all(t, hs) == unlink_all(t1, rest));
        assert forall|c: int, x: int| act.contains(c) implies (#[trigger] r[c].contains(x) <==> cols[c].contains(x)
            && !hs.contains(x)) by {
            assert(hs.contains(x) <==> x == q || rest.contains(x)) by {
                if hs.contains(x) {
                    let k = choose|k: int| 0 <= k < hs.len() && hs[k] == x;
                    if k > 0 {
                        assert(rest[k - 1] == x);
                    }
                }
                if rest.contains(x) {
                    let k = choose|k: int| 0 <= k < rest.len() && rest[k] == x;
                    assert(hs[k + 1] == x);
                }
                if x == q {
                    assert(hs[0] == x);
                }
            }
            if c == c0 {
                lemma_remove_contains(cols[c0], m, x);
            } else {
                assert(cols1[c] == cols[c]);
                if cols[c].contains(q) {
                    let j = choose|j: int| 0 <= j < cols[c].len() && cols[c][j] == q;
                    assert(t.net.hdr[cols[c][j]] == c);
                }
            }
        }
        r
    }
}

/// Every entry of a range that takes part in hiding is in its active
/// range.
proof fn lemma_active_all(color: Seq<Data>, a: int, b: int, y: int, colored: bool)
    requires
        a <= y < b,
        active_at(color, y, colored),
    ensures
        active_range(color, a, b, colored).contains(y),
    decreases b - a,
{
    let r = active_range(color, a, b - 1, colored);
    if y == b - 1 {
        assert(active_range(color, a, b, colored) == r.push(b - 1));
        assert(r.push(b - 1)[r.len() as int] == y);
    } else {
        lemma_active_all(color, a, b - 1, y, colored);
        let k = choose|k: int| 0 <= k < r.len() && r[k] == y;
        if active_at(color, b - 1, colored) {
            assert(active_range(color, a, b, colored) == r.push(b - 1));
            assert(r.push(b - 1)[k] == y);
        } else {
            assert(active_range(color, a, b, colored) == r);
        }
    }
}

/// An entry is live when it takes part in hiding: always without colors,
/// and with colors when it is not purified.
pub open spec fn live(s: Net, q: int) -> bool {
    active_at(s.color, q, s.colored)
}

/// Hiding the option of `p` takes out every other live entry of it.
pub proof fn lemma_hidden_all(s: LinksV, p: int, f: int, l: int, y: int)
    requires
        f <= y <= l,
        y != p,
        f <= p <= l,
        live(s.net, y),
    ensures
        hidden_entries(s, p, f, l, s.net.colored).contains(y),
{
    let colored = s.net.colored;
    let a = active_range(s.net.color, p + 1, l + 1, colored);
    let b = active_range(s.net.color, f, p, colored);
    if y > p {
        lemma_active_all(s.net.color, p + 1, l + 1, y, colored);
        let k = choose|k: int| 0 <= k < a.len() && a[k] == y;
        assert((a + b)[k] == y);
    } else {
        lemma_active_all(s.net.color, f, p, y, colored);
        let k = choose|k: int| 0 <= k < b.len() && b[k] == y;
        assert((a + b)[a.len() + k] == y);
    }
}

/// The other entries of the option of `e` are entries of other items:
/// the live ones of items in `act`, each in the column list of its item,
/// the purified ones of items not in `act`.
pub open spec fn whole(s: Net, act: Set<int>, cols: Seq<Seq<int>>, e: int) -> bool {
    forall|q: int|
        #[trigger] same_option(s, e, q) && s.is_opt(q) && q != e ==> {
            &&& s.hdr[q] != s.hdr[e]
            &&& live(s, q) ==> act.contains(s.hdr[q] as int) && cols[s.hdr[q] as int].contains(q)
            &&& !live(s, q) ==> !act.contains(s.hdr[q] as int)
        }
}

/// Covering item `i`, whose column lists `es`, has hidden the options of
/// the first `k` of them: every column of `act` is still the cycle of its
/// list, the options met in the columns other than `i`, and those of the
/// entries `es[k..]`, are whole, and no entry left in another column
/// shares an option with one of `es[..k]`.
pub open spec fn walk_ok(t: LinksV, act: Set<int>, cols: Seq<Seq<int>>, i: int, es: Seq<int>, k: int) -> bool {
    &&& t.wf()
    &&& act.contains(i)
    &&& 0 <= k <= es.len()
    &&& cols[i] == es
    &&& forall|c: int| #[trigger] act.contains(c) ==> t.net.is_hdr(c) && c < cols.len() && column(t.net, c, cols[c])
    &&& forall|c: int, j: int| act.contains(c) && 0 <= j < cols[c].len() ==> #[trigger] live(t.net, cols[c][j])
    &&& forall|c: int, j: int|
        act.contains(c) && c != i && 0 <= j < cols[c].len() ==> #[trigger] whole(t.net, act, cols, cols[c][j])
    &&& forall|j: int| k <= j < es.len() ==> #[trigger] whole(t.net, act, cols, es[j])
    &&& forall|c: int, j: int, h: int|
        #![trigger cols[c][j], es[h]]
        act.contains(c) && c != i && 0 <= j < cols[c].len() && 0 <= h < k ==> !same_option(t.net, es[h], cols[c][j])
}

/// An entry outside the hidden option keeps its option whole when the
/// option of `p` is hidden.
pub proof fn lemma_whole_after(
    t: LinksV,
    t2: LinksV,
    p: int,
    f: int,
    l: int,
    act: Set<int>,
    cols: Seq<Seq<int>>,
    cols2: Seq<Seq<int>>,
    e: int,
)
    requires
        t.wf(),
        t2.net.same_frame(t.net),
        span(t.net, f, l),
        f <= p <= l,
        forall|y: int| f <= y <= l ==> same_option(t.net, p, y),
        t2.net.color == t.net.color,
        forall|c: int, x: int|
            act.contains(c) ==> (#[trigger] cols2[c].contains(x) <==> cols[c].contains(x)
                && !hidden_entries(t, p, f, l, t.net.colored).contains(x)),
        whole(t.net, act, cols, e),
        t.net.is_opt(e),
        live(t.net, e),
        !hidden_entries(t, p, f, l, t.net.colored).contains(e),
        e != p,
    ensures
        whole(t2.net, act, cols2, e),
        !same_option(t.net, p, e),
{
    let hs = hidden_entries(t, p, f, l, t.net.colored);
    lemma_hidden_facts(t, p, f, l, t.net.colored);
    if same_option(t.net, p, e) {
        if e < f {
            assert(t.net.hdr[f - 1] > 0);
        } else if e > l {
            assert(t.net.hdr[l + 1] > 0);
        }
        lemma_hidden_all(t, p, f, l, e);
    }
    assert forall|q: int| #[trigger] same_option(t2.net, e, q) && t2.net.is_opt(q) && q != e implies {
        &&& t2.net.hdr[q] != t2.net.hdr[e]
        &&& live(t2.net, q) ==> act.contains(t2.net.hdr[q] as int) && cols2[t2.net.hdr[q] as int].contains(q)
        &&& !live(t2.net, q) ==> !act.contains(t2.net.hdr[q] as int)
    } by {
        assert(live(t2.net, q) == live(t.net, q));
        assert(t2.net.hdr[q] == t.net.hdr[q]);
        assert(t2.net.hdr[e] == t.net.hdr[e]);
        lemma_same_option_frame(t.net, t2.net, e, q);
        assert(same_option(t.net, e, q));
        assert(t.net.is_opt(q));
        if hs.contains(q) {
            let k = choose|k: int| 0 <= k < hs.len() && hs[k] == q;
            assert(same_option(t.net, p, hs[k]));
            assert(same_option(t.net, q, p));
            assert(same_option(t.net, q, e));
            lemma_same_option_trans(t.net, q, p, e);
        }
    }
}

/// What the step of the walk needs of the hidden entries: each is an
/// entry of another item of `act`, in its column's list, and no two are
/// entries of the same item.
proof fn lemma_step_hidden(t: LinksV, act: Set<int>, cols: Seq<Seq<int>>, i: int, p: int, f: int, l: int)
    requires
        t.wf(),
        span(t.net, f, l),
        f <= p <= l,
        forall|y: int| f <= y <= l ==> same_option(t.net, p, y),
        t.net.is_opt(p),
        t.net.hdr[p] == i,
        whole(t.net, act, cols, p),
        forall|c: int, j: int|
            act.contains(c) && c != i && 0 <= j < cols[c].len() ==> #[trigger] whole(t.net, act, cols, cols[c][j]),
    ensures
        ({
            let hs = hidden_entries(t, p, f, l, t.net.colored);
            &&& forall|m: int|
                0 <= m < hs.len() ==> t.net.is_opt(#[trigger] hs[m]) && act.contains(t.net.hdr[hs[m]] as int)
                    && cols[t.net.hdr[hs[m]] as int].contains(hs[m]) && t.net.hdr[hs[m]] != i
            &&& forall|a: int, b: int|
                0 <= a < b < hs.len() ==> #[trigger] t.net.hdr[hs[a]] != #[trigger] t.net.hdr[hs[b]]
        }),
{
    lemma_hidden_facts(t, p, f, l, t.net.colored);
    let hs = hidden_entries(t, p, f, l, t.net.colored);
    assert forall|m: int| 0 <= m < hs.len() implies t.net.is_opt(#[trigger] hs[m]) && act.contains(
        t.net.hdr[hs[m]] as int,
    ) && cols[t.net.hdr[hs[m]] as int].contains(hs[m]) && t.net.hdr[hs[m]] != i by {
        assert(same_option(t.net, p, hs[m]));
        assert(t.active(hs[m], t.net.colored));
        assert(live(t.net, hs[m]));
    }
    assert forall|a: int, b: int| 0 <= a < b < hs.len() implies #[trigger] t.net.hdr[hs[a]]
        != #[trigger] t.net.hdr[hs[b]] by {
        let ha = hs[a];
        let hb = hs[b];
        let ca = t.net.hdr[ha] as int;
        assert(t.net.is_opt(ha) && act.contains(ca) && cols[ca].contains(ha) && ca != i);
        let j = choose|j: int| 0 <= j < cols[ca].len() && cols[ca][j] == ha;
        assert(whole(t.net, act, cols, cols[ca][j]));
        assert(same_option(t.net, p, ha) && same_option(t.net, p, hb));
        lemma_same_option_trans(t.net, p, ha, hb);
        assert(t.net.is_opt(hb));
    }
}

/// The step of the walk for one entry `cols[c][j]` of another column that
/// is left after hiding.
proof fn lemma_step_other(
    t: LinksV,
    t2: LinksV,
    act: Set<int>,
    cols: Seq<Seq<int>>,
    r: Seq<Seq<int>>,
    i: int,
    es: Seq<int>,
    k: int,
    f: int,
    l: int,
    c: int,
    j: int,
)
    requires
        walk_ok(t, act, cols, i, es, k),
        k < es.len(),
        t2.net.same_frame(t.net),
        t2.net.color == t.net.color,
        span(t.net, f, l),
        f <= es[k] <= l,
        forall|y: int| f <= y <= l ==> same_option(t.net, es[k], y),
        forall|c: int, x: int|
            act.contains(c) ==> (#[trigger] r[c].contains(x) <==> cols[c].contains(x)
                && !hidden_entries(t, es[k], f, l, t.net.colored).contains(x)),
        act.contains(c),
        c != i,
        0 <= j < r[c].len(),
    ensures
        whole(t2.net, act, r, r[c][j]),
        live(t2.net, r[c][j]),
        forall|h: int| 0 <= h < k + 1 ==> !same_option(t2.net, #[trigger] es[h], r[c][j]),
{
    let p = es[k];
    let e = r[c][j];
    assert(r[c].contains(e));
    assert(cols[c].contains(e));
    let j0 = choose|j0: int| 0 <= j0 < cols[c].len() && cols[c][j0] == e;
    assert(whole(t.net, act, cols, cols[c][j0]));
    assert(live(t.net, cols[c][j0]));
    assert(column(t.net, c, cols[c]));
    assert(t.net.is_opt(e) && t.net.hdr[e] == c);
    assert(column(t.net, i, es));
    assert(t.net.hdr[p] == i);
    lemma_whole_after(t, t2, p, f, l, act, cols, r, e);
    assert forall|h: int| 0 <= h < k + 1 implies !same_option(t2.net, #[trigger] es[h], e) by {
        assert(t.net.is_opt(es[h]));
        lemma_same_option_frame(t.net, t2.net, es[h], e);
        if h < k {
            assert(!same_option(t.net, es[h], cols[c][j0]));
        }
    }
}

/// Hiding the option of the next entry `es[k]` of the column keeps the
/// walk consistent, one entry further.
#[verifier::spinoff_prover]
#[verifier::rlimit(40)]
pub proof fn lemma_walk_step(t: LinksV, act: Set<int>, cols: Seq<Seq<int>>, i: int, es: Seq<int>, k: int) -> (r:
    Seq<Seq<int>>)
    requires
        walk_ok(t, act, cols, i, es, k),
        k < es.len(),
    ensures
        walk_ok(t.hide_option(es[k]), act, r, i, es, k + 1),
        forall|c: int, x: int| act.contains(c) && #[trigger] r[c].contains(x) ==> cols[c].contains(x),
        t.hide_option(es[k]).net.color == t.net.color,
        t.hide_option(es[k]).net.same_frame(t.net),
        t.hide_option(es[k]).net.left == t.net.left,
        t.hide_option(es[k]).net.right == t.net.right,
{
    let p = es[k];
    assert(act.contains(i));
    assert(column(t.net, i, es));
    assert(t.net.is_opt(p) && t.net.hdr[p] == i);
    let (f, l) = lemma_option_span(t.net, p);
    lemma_hide_with(t, p, f, l, t.net.colored);
    let hs = hidden_entries(t, p, f, l, t.net.colored);
    let t2 = t.hide_option(p);
    assert(t2 == unlink_all(t, hs));
    assert(whole(t.net, act, cols, es[k]));
    lemma_step_hidden(t, act, cols, i, p, f, l);
    let r = lemma_unlink_seq(t, hs, act, cols, i);
    lemma_unlink_all_wf(t, hs);
    lemma_unlink_all_outside(t, hs, i, i);
    assert forall|c: int, j: int| act.contains(c) && c != i && 0 <= j < r[c].len() implies #[trigger] whole(
        t2.net,
        act,
        r,
        r[c][j],
    ) && forall|h: int| 0 <= h < k + 1 ==> !same_option(t2.net, #[trigger] es[h], r[c][j]) by {
        lemma_step_other(t, t2, act, cols, r, i, es, k, f, l, c, j);
    }
    assert forall|j: int| k + 1 <= j < es.len() implies #[trigger] whole(t2.net, act, r, es[j]) by {
        let e = es[j];
        assert(whole(t.net, act, cols, es[j]));
        assert(cols[i][j] == e);
        assert(live(t.net, cols[i][j]));
        assert(t.net.is_opt(e) && t.net.hdr[e] == i);
        assert(e != p);
        if hs.contains(e) {
            let m = choose|m: int| 0 <= m < hs.len() && hs[m] == e;
            assert(t.net.hdr[hs[m]] != i);
        }
        lemma_whole_after(t, t2, p, f, l, act, cols, r, e);
    }
    assert(t2.wf());
    assert(r[i] == es);
    assert forall|c: int, j: int| act.contains(c) && 0 <= j < r[c].len() implies #[trigger] live(t2.net, r[c][j]) by {
        let e = r[c][j];
        assert(r[c].contains(e));
        assert(cols[c].contains(e));
        let j0 = choose|j0: int| 0 <= j0 < cols[c].len() && cols[c][j0] == e;
        assert(live(t.net, cols[c][j0]));
    }
    assert forall|c: int| #[trigger] act.contains(c) implies t2.net.is_hdr(c) && c < r.len() && column(
        t2.net,
        c,
        r[c],
    ) by {}
    assert forall|c: int, j: int, h: int|
        #![trigger r[c][j], es[h]]
        act.contains(c) && c != i && 0 <= j < r[c].len() && 0 <= h < k + 1 implies !same_option(
        t2.net,
        es[h],
        r[c][j],
    ) by {
        lemma_step_other(t, t2, act, cols, r, i, es, k, f, l, c, j);
    }
    r
}

/// A consistent state of a problem, with the items of `act` still to
/// cover: each of them is linked in its item list, its column is the cycle
/// of the list `cols[c]` of live entries, and every option met in these
/// columns is whole.
pub open spec fn consistent(s: LinksV, act: Set<int>, cols: Seq<Seq<int>>) -> bool {
    &&& s.wf()
    &&& forall|c: int, j: int| act.contains(c) && 0 <= j < cols[c].len() ==> #[trigger] live(s.net, cols[c][j])
    &&& forall|c: int|
        #[trigger] act.contains(c) ==> s.net.is_hdr(c) && c < cols.len() && column(s.net, c, cols[c])
            && item_linked(s.net, c)
    &&& forall|c: int, j: int|
        act.contains(c) && 0 <= j < cols[c].len() ==> #[trigger] whole(s.net, act, cols, cols[c][j])
}

/// A consistent state meets what covering and uncovering `i` need.
pub proof fn lemma_consistent_cover_ok(s: LinksV, act: Set<int>, cols: Seq<Seq<int>>, i: int)
    requires
        consistent(s, act, cols),
        act.contains(i),
    ensures
        column(s.net, i, cols[i]),
        options_ok(s, i, cols[i], 0),
        item_linked(s.net, i),
{
    let es = cols[i];
    assert forall|j: int, q: int|
        0 <= 0 <= j < es.len() && #[trigger] same_option(s.net, es[j], q) && s.net.is_opt(q) && q != es[j]
            implies s.net.hdr[q] != i && (s.active(q, s.net.colored) ==> linked(s.net, q)) by {
        assert(whole(s.net, act, cols, cols[i][j]));
        assert(s.net.hdr[es[j]] == i);
        let c = s.net.hdr[q] as int;
        if s.active(q, s.net.colored) {
            assert(live(s.net, q));
            assert(act.contains(c) && cols[c].contains(q));
            let m = choose|m: int| 0 <= m < cols[c].len() && cols[c][m] == q;
            lemma_column_linked(s.net, c, cols[c], m);
        }
    }
}

/// Hiding the options of the first `k` entries of the column of `i`
/// keeps the walk consistent.
proof fn lemma_walk(s: LinksV, act: Set<int>, cols: Seq<Seq<int>>, i: int, k: int) -> (r: Seq<Seq<int>>)
    requires
        consistent(s, act, cols),
        act.contains(i),
        0 <= k <= cols[i].len(),
    ensures
        walk_ok(hid(s, cols[i], k), act, r, i, cols[i], k),
        forall|c: int, x: int| act.contains(c) && #[trigger] r[c].contains(x) ==> cols[c].contains(x),
        hid(s, cols[i], k).net.color == s.net.color,
        hid(s, cols[i], k).net.same_frame(s.net),
        hid(s, cols[i], k).net.left == s.net.left,
        hid(s, cols[i], k).net.right == s.net.right,
    decreases k,
{
    let es = cols[i];
    if k == 0 {
        assert(s.net.same_frame(s.net));
        cols
    } else {
        let r0 = lemma_walk(s, act, cols, i, k - 1);
        let t = hid(s, es, k - 1);
        let r = lemma_walk_step(t, act, r0, i, es, k - 1);
        lemma_frame_trans(t.hide_option(es[k - 1]).net, t.net, s.net);
        assert forall|c: int, x: int| act.contains(c) && #[trigger] r[c].contains(x) implies cols[c].contains(x) by {
            assert(r0[c].contains(x));
        }
        r
    }
}

/// Taking item `i` out of the item list keeps every other linked item
/// linked.
pub proof fn lemma_item_keeps_linked(s: Net, i: int, c: int)
    requires
        s.wf(),
        0 <= i < s.ni(),
        0 <= c < s.ni(),
        item_linked(s, i),
        item_linked(s, c),
        c != i,
    ensures
        item_linked(s.unlink_item(i), c),
{
    assert(s.left[i] < s.ni() && s.right[i] < s.ni());
    assert(s.left[c] < s.ni() && s.right[c] < s.ni());
}

/// Covering an item of a consistent state gives a consistent state, with
/// that item no longer to cover.
pub proof fn law_cover_consistent(s: LinksV, act: Set<int>, cols: Seq<Seq<int>>, i: int) -> (r: Seq<
    Seq<int>,
>)
    requires
        consistent(s, act, cols),
        act.contains(i),
    ensures
        consistent(s.cover(i), act.remove(i), r),
        column(s.cover(i).net, i, cols[i]),
        s.cover(i).net.left == s.net.unlink_item(i).left,
        s.cover(i).net.right == s.net.unlink_item(i).right,
        s.cover(i).net.same_frame(s.net),
        s.cover(i).net.color == s.net.color,
        forall|c: int, x: int| act.remove(i).contains(c) && #[trigger] r[c].contains(x) ==> cols[c].contains(x),
        forall|c: int, x: int, h: int|
            #![trigger r[c].contains(x), cols[i][h]]
            act.remove(i).contains(c) && r[c].contains(x) && 0 <= h < cols[i].len() ==> !same_option(
                s.net,
                cols[i][h],
                x,
            ),
{
    let es = cols[i];
    let n = s.net.n();
    lemma_consistent_cover_ok(s, act, cols, i);
    lemma_cover_walk(s, i, es, 0, n as nat);
    let r = lemma_walk(s, act, cols, i, es.len() as int);
    let tk = hid(s, es, es.len() as int);
    let c = s.cover(i);
    assert(c.net == tk.net.unlink_item(i));
    lemma_item_wf(tk.net, i);
    lemma_frame_trans(c.net, tk.net, s.net);
    let act2 = act.remove(i);
    assert forall|x: int, y: int, h: int|
        #![trigger r[x].contains(y), cols[i][h]]
        act2.contains(x) && r[x].contains(y) && 0 <= h < cols[i].len() implies !same_option(s.net, cols[i][h], y) by {
        let m = choose|m: int| 0 <= m < r[x].len() && r[x][m] == y;
        assert(!same_option(tk.net, es[h], r[x][m]));
        assert(column(s.net, i, es));
        assert(s.net.is_opt(es[h]));
        assert(column(tk.net, x, r[x]));
        assert(tk.net.is_opt(y));
        lemma_same_option_frame(s.net, tk.net, es[h], y);
    }
    assert forall|x: int, j: int| act2.contains(x) && 0 <= j < r[x].len() implies #[trigger] live(c.net, r[x][j]) by {
        assert(live(tk.net, r[x][j]));
    }
    assert forall|x: int| #[trigger] act2.contains(x) implies c.net.is_hdr(x) && x < r.len() && column(
        c.net,
        x,
        r[x],
    ) && item_linked(c.net, x) by {
        assert(act.contains(x) && x != i);
        assert(column(tk.net, x, r[x]));
        assert(item_linked(s.net, x));
        lemma_item_keeps_linked(tk.net, i, x);
    }
    assert forall|x: int, j: int| act2.contains(x) && 0 <= j < r[x].len() implies #[trigger] whole(
        c.net,
        act2,
        r,
        r[x][j],
    ) by {
        let e = r[x][j];
        assert(act.contains(x) && x != i);
        assert(whole(tk.net, act, r, r[x][j]));
        assert forall|q: int| #[trigger] same_option(c.net, e, q) && c.net.is_opt(q) && q != e implies {
            &&& c.net.hdr[q] != c.net.hdr[e]
            &&& live(c.net, q) ==> act2.contains(c.net.hdr[q] as int) && r[c.net.hdr[q] as int].contains(q)
            &&& !live(c.net, q) ==> !act2.contains(c.net.hdr[q] as int)
        } by {
            assert(same_option(tk.net, e, q));
            assert(live(c.net, q) == live(tk.net, q));
            if tk.net.hdr[q] == i && live(tk.net, q) {
                assert(r[i].contains(q));
                let h = choose|h: int| 0 <= h < es.len() && es[h] == q;
                assert(!same_option(tk.net, es[h], r[x][j]));
                assert(same_option(tk.net, q, e));
            }
        }
    }
    r
}

/// Uncovering walks read nothing but the node arrays.
proof fn lemma_uncover_walk_net(t1: LinksV, t2: LinksV, i: int, p: int, fuel: nat)
    requires
        t1.net == t2.net,
    ensures
        t1.uncover_walk(i, p, fuel).net == t2.uncover_walk(i, p, fuel).net,
    decreases fuel,
{
    if !(fuel == 0 || p == i || !t1.net.is_opt(p)) {
        let n = t1.net.n();
        let colored = t1.net.colored;
        lemma_unhide_net(t1, t2, p, p - 1, n, colored);
        let u1 = t1.unhide(p);
        let u2 = t2.unhide(p);
        lemma_uncover_walk_net(u1, u2, i, u1.net.up[p] as int, (fuel - 1) as nat);
    }
}

/// Uncovering reads nothing but the node arrays.
pub proof fn lemma_uncover_net(t1: LinksV, t2: LinksV, i: int)
    requires
        t1.net == t2.net,
    ensures
        t1.uncover(i).net == t2.uncover(i).net,
{
    let w1 = LinksV { net: t1.net.relink_item(i), ..t1 };
    let w2 = LinksV { net: t2.net.relink_item(i), ..t2 };
    lemma_uncover_walk_net(w1, w2, i, w1.net.up[i] as int, t1.net.n() as nat);
}

/// The state after covering the items `items`, first to last.
pub open spec fn cover_all(s: LinksV, items: Seq<int>) -> LinksV
    decreases items.len(),
{
    if items.len() == 0 {
        s
    } else {
        cover_all(s.cover(items[0]), items.drop_first())
    }
}

/// The state after uncovering the items `items`, last to first.
pub open spec fn uncover_all(t: LinksV, items: Seq<int>) -> LinksV
    decreases items.len(),
{
    if items.len() == 0 {
        t
    } else {
        uncover_all(t, items.drop_first()).uncover(items[0])
    }
}

/// Uncovering undoes covering at every depth: from a consistent state,
/// covering distinct items still to cover one after another and then
/// uncovering them in the reverse order gives back the same links, column
/// lengths and colors.
pub proof fn law_uncover_all_cover_all(s: LinksV, act: Set<int>, cols: Seq<Seq<int>>, items: Seq<int>)
    requires
        consistent(s, act, cols),
        forall|k: int| 0 <= k < items.len() ==> act.contains(#[trigger] items[k]),
        forall|a: int, b: int| 0 <= a < b < items.len() ==> #[trigger] items[a] != #[trigger] items[b],
    ensures
        uncover_all(cover_all(s, items), items).net == s.net,
    decreases items.len(),
{
    if items.len() > 0 {
        let i = items[0];
        let rest = items.drop_first();
        assert(act.contains(items[0]));
        let r1 = law_cover_consistent(s, act, cols, i);
        let s1 = s.cover(i);
        assert forall|k: int| 0 <= k < rest.len() implies act.remove(i).contains(#[trigger] rest[k]) by {
            assert(rest[k] == items[k + 1]);
            assert(items[0] != items[k + 1]);
            assert(act.contains(items[k + 1]));
        }
        assert forall|a: int, b: int| 0 <= a < b < rest.len() implies #[trigger] rest[a] != #[trigger] rest[b] by {
            assert(rest[a] == items[a + 1] && rest[b] == items[b + 1]);
        }
        law_uncover_all_cover_all(s1, act.remove(i), r1, rest);
        let x = cover_all(s1, rest);
        assert(cover_all(s, items) == x);
        let y = uncover_all(x, rest);
        assert(y.net == s1.net);
        lemma_uncover_net(y, s1, i);
        lemma_consistent_cover_ok(s, act, cols, i);
        law_uncover_cover(s, i, cols[i]);
    }
}

/// Covering a run of distinct items still to cover keeps a consistent
/// state consistent, with these items no longer to cover, and keeps the
/// frame.
pub proof fn law_cover_all_consistent(s: LinksV, act: Set<int>, cols: Seq<Seq<int>>, items: Seq<int>) -> (r: Seq<
    Seq<int>,
>)
    requires
        consistent(s, act, cols),
        forall|k: int| 0 <= k < items.len() ==> act.contains(#[trigger] items[k]),
        forall|a: int, b: int| 0 <= a < b < items.len() ==> #[trigger] items[a] != #[trigger] items[b],
    ensures
        consistent(cover_all(s, items), act.difference(items.to_set()), r),
        cover_all(s, items).net.same_frame(s.net),
    decreases items.len(),
{
    if items.len() == 0 {
        assert(act.difference(items.to_set()) =~= act);
        assert(s.net.same_frame(s.net));
        cols
    } else {
        let i = items[0];
        let rest = items.drop_first();
        assert(act.contains(items[0]));
        let r1 = law_cover_consistent(s, act, cols, i);
        let s1 = s.cover(i);
        assert forall|k: int| 0 <= k < rest.len() implies act.remove(i).contains(#[trigger] rest[k]) by {
            assert(rest[k] == items[k + 1]);
            assert(items[0] != items[k + 1]);
            assert(act.contains(items[k + 1]));
        }
        assert forall|a: int, b: int| 0 <= a < b < rest.len() implies #[trigger] rest[a] != #[trigger] rest[b] by {
            assert(rest[a] == items[a + 1] && rest[b] == items[b + 1]);
        }
        let r = law_cover_all_consistent(s1, act.remove(i), r1, rest);
        assert(act.remove(i).difference(rest.to_set()) =~= act.difference(items.to_set())) by {
            assert forall|x: int| items.to_set().contains(x) <==> x == i || rest.to_set().contains(x) by {
                if items.to_set().contains(x) {
                    let k = choose|k: int| 0 <= k < items.len() && items[k] == x;
                    if k > 0 {
                        assert(rest[k - 1] == x);
                    }
                }
                if rest.to_set().contains(x) {
                    let k = choose|k: int| 0 <= k < rest.len() && rest[k] == x;
                    assert(items[k + 1] == x);
                }
                if x == i {
                    assert(items[0] == x);
                }
            }
        }
        lemma_frame_trans(cover_all(s1, rest).net, s1.net, s.net);
        r
    }
}

/// The position of the `k`-th entry met walking around the option
/// `f..=l` from the entry after `x`.
pub open spec fn opt_pos(x: int, f: int, l: int, k: int) -> int {
    if k < l - x {
        x + 1 + k
    } else {
        f + k - (l - x)
    }
}

/// Where the walk of uncommitting stands when the first `k` entries met
/// walking around the option are still committed.
pub open spec fn back_pos(x: int, f: int, l: int, k: int) -> int {
    if k == 0 {
        x
    } else {
        opt_pos(x, f, l, k - 1)
    }
}

} // verus!