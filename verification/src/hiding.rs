//! Unhiding an option undoes hiding it: the walks of `hide_with` and
//! `unhide_with` meet the other entries of an option in opposite orders,
//! and putting entries back in the reverse order of taking them out
//! restores every link.

use vstd::prelude::*;

use crate::links::{
    lemma_col_facts, lemma_frame_trans, lemma_relink_wf, lemma_spacer_facts, lemma_unlink_keeps_linked,
    lemma_unlink_wf, law_relink_unlink, linked, LinksV, Net,
};
use crate::Data;

verus! {

/// Entry `q` takes part in hiding, given the colors of the entries.
pub open spec fn active_at(color: Seq<Data>, q: int, colored: bool) -> bool {
    !colored || color[q] >= 0
}

/// The entries of `a..b` that take part in hiding, in order.
pub open spec fn active_range(color: Seq<Data>, a: int, b: int, colored: bool) -> Seq<int>
    decreases b - a,
{
    if b <= a {
        Seq::empty()
    } else {
        let r = active_range(color, a, b - 1, colored);
        if active_at(color, b - 1, colored) {
            r.push(b - 1)
        } else {
            r
        }
    }
}

/// Take the entries `es` out of their columns, first to last.
pub open spec fn unlink_all(s: LinksV, es: Seq<int>) -> LinksV
    decreases es.len(),
{
    if es.len() == 0 {
        s
    } else {
        unlink_all(s.unlink(es[0]), es.drop_first())
    }
}

/// Put the entries `es` back into their columns, last to first.
pub open spec fn relink_back(s: LinksV, es: Seq<int>) -> LinksV
    decreases es.len(),
{
    if es.len() == 0 {
        s
    } else {
        relink_back(s.relink(es.last()), es.drop_last())
    }
}

/// The entries `f..=l` form one option: spacers frame them, the spacer
/// after them leads up to `f` and the spacer before them down to `l`.
pub open spec fn span(s: Net, f: int, l: int) -> bool {
    &&& s.len + 2 <= f <= l
    &&& l + 1 < s.n()
    &&& s.hdr[f - 1] <= 0
    &&& s.hdr[l + 1] <= 0
    &&& forall|y: int| f <= y <= l ==> #[trigger] s.hdr[y] > 0
    &&& s.up[l + 1] == f
    &&& s.down[f - 1] == l
}

/// No entry of the option between `p` and `q` is a spacer: they belong to
/// the same option.
pub open spec fn same_option(s: Net, p: int, q: int) -> bool {
    forall|y: int| (p <= y <= q || q <= y <= p) ==> #[trigger] s.hdr[y] > 0
}

/// A span is kept by every change that keeps the frame.
pub proof fn lemma_span_frame(s: Net, t: Net, f: int, l: int)
    requires
        span(s, f, l),
        t.same_frame(s),
    ensures
        span(t, f, l),
{
    assert(t.hdr[f - 1] == s.hdr[f - 1]);
    assert(t.hdr[l + 1] == s.hdr[l + 1]);
    assert(t.is_spacer(f - 1) && t.is_spacer(l + 1));
    assert forall|y: int| f <= y <= l implies #[trigger] t.hdr[y] > 0 by {
        assert(t.hdr[y] == s.hdr[y]);
    }
}

/// The active entries of a range lie in it, in increasing order.
pub proof fn lemma_active_range(color: Seq<Data>, a: int, b: int, colored: bool)
    ensures
        forall|k: int|
            0 <= k < active_range(color, a, b, colored).len() ==> a <= #[trigger] active_range(
                color,
                a,
                b,
                colored,
            )[k] < b,
        forall|i: int, j: int|
            0 <= i < j < active_range(color, a, b, colored).len() ==> #[trigger] active_range(
                color,
                a,
                b,
                colored,
            )[i] < #[trigger] active_range(color, a, b, colored)[j],
    decreases b - a,
{
    if b > a {
        lemma_active_range(color, a, b - 1, colored);
        let r = active_range(color, a, b - 1, colored);
        let t = active_range(color, a, b, colored);
        assert forall|k: int| 0 <= k < t.len() implies a <= #[trigger] t[k] < b by {
            if k < r.len() {
                assert(t[k] == r[k]);
            }
        }
        assert forall|i: int, j: int| 0 <= i < j < t.len() implies #[trigger] t[i] < #[trigger] t[j] by {
            assert(t[i] == r[i]);
            if j < r.len() {
                assert(t[j] == r[j]);
            } else {
                assert(r[i] < b - 1);
            }
        }
    }
}

/// The first entry of a range comes first.
proof fn lemma_active_front(color: Seq<Data>, a: int, b: int, colored: bool)
    requires
        a < b,
    ensures
        active_range(color, a, b, colored) == (if active_at(color, a, colored) {
            seq![a]
        } else {
            Seq::empty()
        }) + active_range(color, a + 1, b, colored),
    decreases b - a,
{
    let head = if active_at(color, a, colored) {
        seq![a]
    } else {
        Seq::<int>::empty()
    };
    if b - 1 > a {
        lemma_active_front(color, a, b - 1, colored);
        let x = active_range(color, a + 1, b - 1, colored);
        assert((head + x).push(b - 1) == head + x.push(b - 1));
    } else {
        assert(active_range(color, a, a, colored) == Seq::<int>::empty());
        assert(active_range(color, a + 1, b, colored) == Seq::<int>::empty());
        assert(Seq::<int>::empty().push(a) == seq![a]);
        assert(head + Seq::<int>::empty() == head);
    }
}

/// Taking out `x + y` is taking out `x`, then `y`.
proof fn lemma_unlink_all_concat(s: LinksV, x: Seq<int>, y: Seq<int>)
    ensures
        unlink_all(s, x + y) == unlink_all(unlink_all(s, x), y),
    decreases x.len(),
{
    if x.len() > 0 {
        assert((x + y).drop_first() == x.drop_first() + y);
        lemma_unlink_all_concat(s.unlink(x[0]), x.drop_first(), y);
    } else {
        assert(x + y == y);
    }
}

/// Putting back `x + y` is putting back `y`, then `x`.
proof fn lemma_relink_back_concat(s: LinksV, x: Seq<int>, y: Seq<int>)
    ensures
        relink_back(s, x + y) == relink_back(relink_back(s, y), x),
    decreases y.len(),
{
    if y.len() > 0 {
        assert((x + y).drop_last() == x + y.drop_last());
        assert((x + y).last() == y.last());
        lemma_relink_back_concat(s.relink(y.last()), x, y.drop_last());
    } else {
        assert(x + y == x);
    }
}

/// Putting back `es` ends with its first entry.
proof fn lemma_relink_back_front(s: LinksV, es: Seq<int>)
    requires
        es.len() > 0,
    ensures
        relink_back(s, es) == relink_back(s, es.drop_first()).relink(es[0]),
    decreases es.len(),
{
    if es.len() > 1 {
        let t = s.relink(es.last());
        lemma_relink_back_front(t, es.drop_last());
        assert(es.drop_last().drop_first() == es.drop_first().drop_last());
        assert(es.drop_first().last() == es.last());
        assert(es.drop_last()[0] == es[0]);
        assert(relink_back(s, es) == relink_back(t, es.drop_last()));
        assert(relink_back(s, es.drop_first()) == relink_back(t, es.drop_first().drop_last()));
    } else {
        assert(es.drop_first().len() == 0);
        assert(es.drop_last().len() == 0);
        assert(es.last() == es[0]);
        assert(relink_back(s.relink(es.last()), es.drop_last()) == s.relink(es.last()));
        assert(relink_back(s, es.drop_first()) == s);
    }
}

/// Taking out entries keeps the well-formedness, the frame and the colors.
pub proof fn lemma_unlink_all_wf(s: LinksV, es: Seq<int>)
    requires
        s.wf(),
        forall|k: int| 0 <= k < es.len() ==> s.net.is_opt(#[trigger] es[k]),
    ensures
        unlink_all(s, es).wf(),
        unlink_all(s, es).net.same_frame(s.net),
        unlink_all(s, es).net.color == s.net.color,
    decreases es.len(),
{
    if es.len() > 0 {
        let t = s.unlink(es[0]);
        lemma_unlink_wf(s.net, es[0]);
        assert forall|k: int| 0 <= k < es.drop_first().len() implies t.net.is_opt(
            #[trigger] es.drop_first()[k],
        ) by {
            assert(es.drop_first()[k] == es[k + 1]);
            assert(t.net.hdr[es[k + 1]] == s.net.hdr[es[k + 1]]);
        }
        lemma_unlink_all_wf(t, es.drop_first());
        lemma_frame_trans(unlink_all(t, es.drop_first()).net, t.net, s.net);
    } else {
        assert(s.net.same_frame(s.net));
    }
}

/// Putting back entries keeps the well-formedness, the frame and the
/// colors.
proof fn lemma_relink_back_wf(s: LinksV, es: Seq<int>)
    requires
        s.wf(),
        forall|k: int| 0 <= k < es.len() ==> s.net.is_opt(#[trigger] es[k]),
    ensures
        relink_back(s, es).wf(),
        relink_back(s, es).net.same_frame(s.net),
        relink_back(s, es).net.color == s.net.color,
    decreases es.len(),
{
    if es.len() > 0 {
        let t = s.relink(es.last());
        assert(s.net.is_opt(es[es.len() - 1]));
        lemma_relink_wf(s.net, es.last());
        assert forall|k: int| 0 <= k < es.drop_last().len() implies t.net.is_opt(
            #[trigger] es.drop_last()[k],
        ) by {
            assert(es.drop_last()[k] == es[k]);
            assert(t.net.hdr[es[k]] == s.net.hdr[es[k]]);
        }
        lemma_relink_back_wf(t, es.drop_last());
        lemma_frame_trans(relink_back(t, es.drop_last()).net, t.net, s.net);
    } else {
        assert(s.net.same_frame(s.net));
    }
}

/// Putting entries back, last to first, undoes taking them out, first to
/// last, when they were distinct linked entries.
pub proof fn law_relink_back_unlink_all(s: LinksV, es: Seq<int>)
    requires
        s.wf(),
        forall|k: int| 0 <= k < es.len() ==> s.net.is_opt(#[trigger] es[k]),
        forall|k: int| 0 <= k < es.len() ==> linked(s.net, #[trigger] es[k]),
        forall|i: int, j: int| 0 <= i < j < es.len() ==> #[trigger] es[i] != #[trigger] es[j],
    ensures
        relink_back(unlink_all(s, es), es).net == s.net,
    decreases es.len(),
{
    if es.len() > 0 {
        let e = es[0];
        let rest = es.drop_first();
        let s1 = s.unlink(e);
        lemma_unlink_wf(s.net, e);
        assert forall|k: int| 0 <= k < rest.len() implies s1.net.is_opt(#[trigger] rest[k]) && linked(
            s1.net,
            rest[k],
        ) by {
            assert(rest[k] == es[k + 1]);
            assert(es[0] != es[k + 1]);
            assert(s1.net.hdr[es[k + 1]] == s.net.hdr[es[k + 1]]);
            lemma_unlink_keeps_linked(s.net, e, es[k + 1]);
        }
        assert forall|i: int, j: int| 0 <= i < j < rest.len() implies #[trigger] rest[i]
            != #[trigger] rest[j] by {
            assert(rest[i] == es[i + 1] && rest[j] == es[j + 1]);
        }
        law_relink_back_unlink_all(s1, rest);
        let u = unlink_all(s1, rest);
        assert(unlink_all(s, es) == u);
        lemma_relink_back_front(u, es);
        law_relink_unlink(s.net, e);
    }
}

/// Hiding from entry `q` in `f..=p` on takes out the active entries of
/// `q..p`.
proof fn lemma_hide_wrap(t: LinksV, p: int, q: int, n: int, colored: bool, f: int, l: int)
    requires
        t.wf(),
        n == t.net.n(),
        span(t.net, f, l),
        f <= q <= p <= l,
    ensures
        t.hide_from(p, q, n, colored) == unlink_all(t, active_range(t.net.color, q, p, colored)),
    decreases p - q,
{
    if q < p {
        assert(t.net.hdr[q] > 0);
        let next = if t.active(q, colored) {
            t.unlink(q)
        } else {
            t
        };
        lemma_unlink_wf(t.net, q);
        assert(next.net.same_frame(t.net));
        lemma_span_frame(t.net, next.net, f, l);
        lemma_hide_wrap(next, p, q + 1, n, colored, f, l);
        lemma_active_front(t.net.color, q, p, colored);
        let r = active_range(t.net.color, q + 1, p, colored);
        if t.active(q, colored) {
            assert((seq![q] + r).drop_first() == r);
        } else {
            assert(Seq::<int>::empty() + r == r);
        }
    }
}

/// Hiding from entry `q` after `p` on takes out the active entries of
/// `q..=l`, then goes on from `f`.
proof fn lemma_hide_fwd(t: LinksV, p: int, q: int, n: int, colored: bool, f: int, l: int)
    requires
        t.wf(),
        n == t.net.n(),
        span(t.net, f, l),
        f <= p < q <= l + 1,
    ensures
        t.hide_from(p, q, n, colored) == unlink_all(t, active_range(t.net.color, q, l + 1, colored)).hide_from(
            p,
            f,
            n,
            colored,
        ),
    decreases l + 1 - q,
{
    if q <= l {
        assert(t.net.hdr[q] > 0);
        let next = if t.active(q, colored) {
            t.unlink(q)
        } else {
            t
        };
        lemma_unlink_wf(t.net, q);
        lemma_span_frame(t.net, next.net, f, l);
        lemma_hide_fwd(next, p, q + 1, n, colored, f, l);
        lemma_active_front(t.net.color, q, l + 1, colored);
        let r = active_range(t.net.color, q + 1, l + 1, colored);
        if t.active(q, colored) {
            assert((seq![q] + r).drop_first() == r);
        } else {
            assert(Seq::<int>::empty() + r == r);
        }
    }
}

/// Unhiding from entry `q` in `f - 1..p` on puts back the active entries of
/// `f..=q`, last to first, then goes on from `l`.
proof fn lemma_unhide_wrap(t: LinksV, p: int, q: int, n: int, colored: bool, f: int, l: int)
    requires
        t.wf(),
        n == t.net.n(),
        span(t.net, f, l),
        f <= p <= l,
        f - 1 <= q < p,
    ensures
        t.unhide_from(p, q, n, colored) == relink_back(t, active_range(t.net.color, f, q + 1, colored)).unhide_from(
            p,
            l,
            n,
            colored,
        ),
    decreases q - f + 1,
{
    if q >= f {
        assert(t.net.hdr[q] > 0);
        let next = if t.active(q, colored) {
            t.relink(q)
        } else {
            t
        };
        lemma_relink_wf(t.net, q);
        lemma_span_frame(t.net, next.net, f, l);
        lemma_unhide_wrap(next, p, q - 1, n, colored, f, l);
        let r = active_range(t.net.color, f, q, colored);
        if t.active(q, colored) {
            assert(r.push(q).drop_last() == r);
        }
    }
}

/// Unhiding from entry `q` in `p..=l` on puts back the active entries of
/// `p + 1..=q`, last to first.
proof fn lemma_unhide_fwd(t: LinksV, p: int, q: int, n: int, colored: bool, f: int, l: int)
    requires
        t.wf(),
        n == t.net.n(),
        span(t.net, f, l),
        f <= p <= q <= l,
    ensures
        t.unhide_from(p, q, n, colored) == relink_back(t, active_range(t.net.color, p + 1, q + 1, colored)),
    decreases q - p,
{
    if q > p {
        assert(t.net.hdr[q] > 0);
        let next = if t.active(q, colored) {
            t.relink(q)
        } else {
            t
        };
        lemma_relink_wf(t.net, q);
        lemma_span_frame(t.net, next.net, f, l);
        lemma_unhide_fwd(next, p, q - 1, n, colored, f, l);
        let r = active_range(t.net.color, p + 1, q, colored);
        if t.active(q, colored) {
            assert(r.push(q).drop_last() == r);
        }
    }
}

/// The other active entries of the option of `p`, in the order hiding
/// takes them out: those after `p`, then those before it.
pub open spec fn hidden_entries(s: LinksV, p: int, f: int, l: int, colored: bool) -> Seq<int> {
    active_range(s.net.color, p + 1, l + 1, colored) + active_range(s.net.color, f, p, colored)
}

/// Hiding the option of `p` takes out its other active entries, in order.
pub proof fn lemma_hide_with(s: LinksV, p: int, f: int, l: int, colored: bool)
    requires
        s.wf(),
        span(s.net, f, l),
        f <= p <= l,
    ensures
        s.hide_with(p, colored) == unlink_all(s, hidden_entries(s, p, f, l, colored)),
{
    let n = s.net.n();
    let a = active_range(s.net.color, p + 1, l + 1, colored);
    let b = active_range(s.net.color, f, p, colored);
    lemma_active_range(s.net.color, p + 1, l + 1, colored);
    lemma_hide_fwd(s, p, p + 1, n, colored, f, l);
    let u = unlink_all(s, a);
    assert forall|k: int| 0 <= k < a.len() implies s.net.is_opt(#[trigger] a[k]) by {
        assert(s.net.hdr[a[k]] > 0);
    }
    lemma_unlink_all_wf(s, a);
    lemma_span_frame(s.net, u.net, f, l);
    lemma_hide_wrap(u, p, f, n, colored, f, l);
    lemma_unlink_all_concat(s, a, b);
}

/// Unhiding the option of `p` puts back its other active entries, in the
/// reverse order of hiding.
pub proof fn lemma_unhide_with(t: LinksV, p: int, f: int, l: int, colored: bool)
    requires
        t.wf(),
        span(t.net, f, l),
        f <= p <= l,
    ensures
        t.unhide_with(p, colored) == relink_back(t, hidden_entries(t, p, f, l, colored)),
{
    let n = t.net.n();
    let a = active_range(t.net.color, p + 1, l + 1, colored);
    let b = active_range(t.net.color, f, p, colored);
    lemma_unhide_wrap(t, p, p - 1, n, colored, f, l);
    let u = relink_back(t, b);
    lemma_active_range(t.net.color, f, p, colored);
    assert forall|k: int| 0 <= k < b.len() implies t.net.is_opt(#[trigger] b[k]) by {
        assert(t.net.hdr[b[k]] > 0);
    }
    lemma_relink_back_wf(t, b);
    lemma_span_frame(t.net, u.net, f, l);
    lemma_unhide_fwd(u, p, l, n, colored, f, l);
    lemma_relink_back_concat(t, a, b);
}

/// The option around an entry: the entries from the spacer before it to
/// the spacer after it.
pub proof fn lemma_option_span(s: Net, p: int) -> (r: (int, int))
    requires
        s.wf(),
        s.is_opt(p),
    ensures
        span(s, r.0, r.1),
        r.0 <= p <= r.1,
        forall|y: int| r.0 <= y <= r.1 ==> same_option(s, p, y),
{
    lemma_col_facts(s, p);
    let f = first_of(s, p, p);
    let l = last_of(s, p, p);
    lemma_spacer_facts(s, f - 1);
    lemma_spacer_facts(s, l + 1);
    let u = s.up[l + 1] as int;
    assert(s.block_before(u, l + 1));
    if u < f {
        assert(s.hdr[f - 1] > 0);
    } else if u > f {
        assert(s.hdr[u - 1] <= 0);
    }
    let d = s.down[f - 1] as int;
    assert(s.block_after(f - 1, d));
    if d < l {
        assert(s.hdr[d + 1] <= 0);
    } else if d > l {
        assert(s.hdr[l + 1] > 0);
    }
    (f, l)
}

/// The first entry of the option of `p`, looking down from `q`.
proof fn first_of(s: Net, p: int, q: int) -> (f: int)
    requires
        s.wf(),
        s.len + 2 <= q <= p < s.n(),
        forall|y: int| q <= y <= p ==> #[trigger] s.hdr[y] > 0,
    ensures
        s.len + 2 <= f <= q,
        s.hdr[f - 1] <= 0,
        forall|y: int| f <= y <= p ==> #[trigger] s.hdr[y] > 0,
    decreases q,
{
    crate::links::lemma_end_spacers(s);
    if s.hdr[q - 1] <= 0 {
        q
    } else {
        first_of(s, p, q - 1)
    }
}

/// The last entry of the option of `p`, looking up from `q`.
proof fn last_of(s: Net, p: int, q: int) -> (l: int)
    requires
        s.wf(),
        s.len + 2 <= p <= q < s.n(),
        forall|y: int| p <= y <= q ==> #[trigger] s.hdr[y] > 0,
    ensures
        q <= l < s.n() - 1,
        s.hdr[l + 1] <= 0,
        forall|y: int| p <= y <= l ==> #[trigger] s.hdr[y] > 0,
    decreases s.n() - q,
{
    crate::links::lemma_end_spacers(s);
    assert(q < s.n() - 1);
    if s.hdr[q + 1] <= 0 {
        q
    } else {
        last_of(s, p, q + 1)
    }
}

/// The entries that hiding takes out are the other active entries of the
/// option, each once.
pub proof fn lemma_hidden_facts(s: LinksV, p: int, f: int, l: int, colored: bool)
    requires
        span(s.net, f, l),
        f <= p <= l,
        forall|y: int| f <= y <= l ==> same_option(s.net, p, y),
    ensures
        forall|k: int|
            0 <= k < hidden_entries(s, p, f, l, colored).len() ==> {
                let e = #[trigger] hidden_entries(s, p, f, l, colored)[k];
                &&& f <= e <= l
                &&& e != p
                &&& s.net.is_opt(e)
                &&& same_option(s.net, p, e)
                &&& s.active(e, colored)
            },
        forall|a: int, b: int|
            0 <= a < b < hidden_entries(s, p, f, l, colored).len() ==> #[trigger] hidden_entries(
                s,
                p,
                f,
                l,
                colored,
            )[a] != #[trigger] hidden_entries(s, p, f, l, colored)[b],
{
    let es = hidden_entries(s, p, f, l, colored);
    let a = active_range(s.net.color, p + 1, l + 1, colored);
    let b = active_range(s.net.color, f, p, colored);
    lemma_active_range(s.net.color, p + 1, l + 1, colored);
    lemma_active_range(s.net.color, f, p, colored);
    assert forall|k: int| 0 <= k < es.len() implies {
        let e = #[trigger] es[k];
        &&& f <= e <= l
        &&& e != p
        &&& s.net.is_opt(e)
        &&& same_option(s.net, p, e)
        &&& s.active(e, colored)
    } by {
        let e = es[k];
        if k < a.len() {
            assert(e == a[k]);
            lemma_active_member(s.net.color, p + 1, l + 1, colored, k);
        } else {
            assert(e == b[k - a.len()]);
            lemma_active_member(s.net.color, f, p, colored, k - a.len());
        }
        assert(s.net.hdr[e] > 0);
    }
    assert forall|i: int, j: int| 0 <= i < j < es.len() implies #[trigger] es[i] != #[trigger] es[j] by {
        if j < a.len() {
            assert(es[i] == a[i] && es[j] == a[j]);
        } else if i >= a.len() {
            assert(es[i] == b[i - a.len()] && es[j] == b[j - a.len()]);
        } else {
            assert(es[i] == a[i] && es[j] == b[j - a.len()]);
        }
    }
}

/// Unhiding an option undoes hiding it: when every other active entry of
/// the option of `p` is linked in its column, hiding the option and then
/// unhiding it gives back the same links and column lengths.
pub proof fn law_unhide_hide(s: LinksV, p: int, colored: bool)
    requires
        s.wf(),
        s.net.is_opt(p),
        forall|q: int|
            #[trigger] s.net.is_opt(q) && same_option(s.net, p, q) && q != p && s.active(q, colored)
                ==> linked(s.net, q),
    ensures
        s.hide_with(p, colored).unhide_with(p, colored).net == s.net,
{
    let (f, l) = lemma_option_span(s.net, p);
    lemma_hide_with(s, p, f, l, colored);
    let es = hidden_entries(s, p, f, l, colored);
    lemma_hidden_facts(s, p, f, l, colored);
    assert forall|k: int| 0 <= k < es.len() implies s.net.is_opt(#[trigger] es[k]) && linked(
        s.net,
        es[k],
    ) by {
        let e = es[k];
        assert(s.net.is_opt(e) && same_option(s.net, p, e) && e != p && s.active(e, colored));
    }
    lemma_unlink_all_wf(s, es);
    let t = unlink_all(s, es);
    lemma_span_frame(s.net, t.net, f, l);
    lemma_unhide_with(t, p, f, l, colored);
    assert(hidden_entries(t, p, f, l, colored) == es);
    law_relink_back_unlink_all(s, es);
}

/// The members of an active range are active.
pub proof fn lemma_active_member(color: Seq<Data>, a: int, b: int, colored: bool, k: int)
    requires
        0 <= k < active_range(color, a, b, colored).len(),
    ensures
        active_at(color, active_range(color, a, b, colored)[k], colored),
    decreases b - a,
{
    if b > a {
        let r = active_range(color, a, b - 1, colored);
        if k < r.len() {
            lemma_active_member(color, a, b - 1, colored, k);
        }
    }
}

} // verus!
