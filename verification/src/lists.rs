//! The item lists of a consistent state: the primary items still to cover
//! form the cycle through node `0`, the secondary items the cycle through
//! node `len + 1`. Covering an item takes it out of its cycle, so that the
//! items met walking the primary list are exactly those still to cover.

use vstd::prelude::*;

use crate::levels::{
    after, before, down_chain, lemma_down_remove, lemma_remove_contains, lemma_ring_remove, lemma_up_remove, ring,
    up_chain,
};
use crate::chooser::{active_items, walk};
use crate::links::{LinksV, Net};

verus! {

/// The item lists: the primary items `lst`, all still to cover, form the
/// cycle through node `0`; the secondary items `slst`, among them every
/// secondary item still to cover, form the cycle through node `len + 1`.
pub open spec fn lists_ok(s: Net, act: Set<int>, lst: Seq<int>, slst: Seq<int>) -> bool {
    &&& ring(s.ni(), 0, lst)
    &&& down_chain(s.right, 0, lst)
    &&& up_chain(s.left, 0, lst)
    &&& ring(s.ni(), s.len + 1, slst)
    &&& down_chain(s.right, s.len + 1, slst)
    &&& up_chain(s.left, s.len + 1, slst)
    &&& s.left.len() == s.ni()
    &&& s.right.len() == s.ni()
    &&& forall|k: int| 0 <= k < lst.len() ==> 1 <= #[trigger] lst[k] <= s.primary && act.contains(lst[k])
    &&& forall|k: int| 0 <= k < slst.len() ==> s.primary < #[trigger] slst[k] <= s.len
    &&& forall|c: int| #[trigger] act.contains(c) ==> (c <= s.primary ==> lst.contains(c)) && (c > s.primary
        ==> slst.contains(c))
}

/// Only entries of secondary items have colors or are purified.
pub open spec fn colors_secondary(s: Net) -> bool {
    forall|e: int| #[trigger] s.is_opt(e) && s.color[e] != 0 ==> s.hdr[e] > s.primary
}

/// Changing colors only on entries of secondary items keeps colors only
/// on entries of secondary items.
pub proof fn lemma_colors_keep(s: Net, t: Net)
    requires
        colors_secondary(s),
        s.wf(),
        t.same_frame(s),
        forall|x: int| 0 <= x < s.color.len() && #[trigger] t.color[x] != s.color[x] ==> s.hdr[x] > s.primary,
    ensures
        colors_secondary(t),
{
    assert forall|e: int| #[trigger] t.is_opt(e) && t.color[e] != 0 implies t.hdr[e] > t.primary by {
        assert(t.hdr[e] == s.hdr[e]);
        assert(s.is_opt(e));
    }
}

/// A walk of `down` links that differ from those of a walk only off it
/// is the same walk.
proof fn lemma_down_frame(d: Seq<usize>, d2: Seq<usize>, c: int, l: Seq<int>)
    requires
        down_chain(d, c, l),
        d2[c] == d[c],
        forall|k: int| 0 <= k < l.len() ==> d2[#[trigger] l[k]] == d[l[k]],
    ensures
        down_chain(d2, c, l),
{
}

/// A walk of `up` links that differ from those of a walk only off it is
/// the same walk.
proof fn lemma_up_frame(u: Seq<usize>, u2: Seq<usize>, c: int, l: Seq<int>)
    requires
        up_chain(u, c, l),
        u2[c] == u[c],
        forall|k: int| 0 <= k < l.len() ==> u2[#[trigger] l[k]] == u[l[k]],
    ensures
        up_chain(u2, c, l),
{
}

/// The neighbours of position `m` of a walk are on it or its start.
proof fn lemma_neighbours(n: int, c: int, l: Seq<int>, m: int, d: Seq<usize>, u: Seq<usize>)
    requires
        ring(n, c, l),
        down_chain(d, c, l),
        up_chain(u, c, l),
        0 <= m < l.len(),
    ensures
        u[l[m]] == before(c, l, m),
        d[l[m]] == after(c, l, m),
        before(c, l, m) == c || exists|k: int| 0 <= k < l.len() && l[k] == before(c, l, m),
        after(c, l, m) == c || exists|k: int| 0 <= k < l.len() && l[k] == after(c, l, m),
{
    if m > 0 {
        assert(l[m - 1] == before(c, l, m));
    }
    if m + 1 < l.len() {
        assert(l[m + 1] == after(c, l, m));
    }
}

/// Taking the entry at position `m` out of a cycle of `right` and `left`
/// links leaves the cycle without it, and the list without it.
proof fn lemma_cycle_remove(s: Net, c: int, l: Seq<int>, m: int)
    requires
        ring(s.ni(), c, l),
        down_chain(s.right, c, l),
        up_chain(s.left, c, l),
        s.left.len() == s.ni(),
        s.right.len() == s.ni(),
        0 <= m < l.len(),
    ensures
        s.left[l[m]] == before(c, l, m),
        s.right[l[m]] == after(c, l, m),
        ring(s.ni(), c, l.remove(m)),
        down_chain(s.unlink_item(l[m]).right, c, l.remove(m)),
        up_chain(s.unlink_item(l[m]).left, c, l.remove(m)),
        forall|x: int| l.remove(m).contains(x) <==> l.contains(x) && x != l[m],
{
    let i = l[m];
    let t = s.unlink_item(i);
    lemma_neighbours(s.ni(), c, l, m, s.right, s.left);
    let b = before(c, l, m);
    let a = after(c, l, m);
    assert(t.right == s.right.update(b, a as usize));
    assert(t.left == s.left.update(a, b as usize));
    lemma_down_remove(s.right, c, l, m);
    lemma_up_remove(s.left, c, l, m);
    lemma_ring_remove(s.ni(), c, l, m);
    assert forall|x: int| l.remove(m).contains(x) <==> l.contains(x) && x != l[m] by {
        lemma_remove_contains(l, m, x);
    }
}

/// Taking a primary item `i`, still to cover, out of its list keeps the
/// lists, without `i`.
#[verifier::spinoff_prover]
proof fn lemma_lists_unlink_primary(s: Net, act: Set<int>, lst: Seq<int>, slst: Seq<int>, i: int) -> (r: Seq<int>)
    requires
        lists_ok(s, act, lst, slst),
        act.contains(i),
        1 <= i <= s.primary,
    ensures
        lists_ok(s.unlink_item(i), act.remove(i), r, slst),
{
    let t = s.unlink_item(i);
    let act2 = act.remove(i);
    let z = s.len + 1;
    assert(lst.contains(i));
    let m = choose|m: int| 0 <= m < lst.len() && lst[m] == i;
    lemma_cycle_remove(s, 0, lst, m);
    let b = before(0, lst, m);
    let a = after(0, lst, m);
    assert(b == 0 || 1 <= b <= s.primary);
    assert(a == 0 || 1 <= a <= s.primary);
    assert forall|k: int| 0 <= k < slst.len() implies t.right[#[trigger] slst[k]] == s.right[slst[k]] && t.left[slst[k]]
        == s.left[slst[k]] by {
        assert(slst[k] > s.primary);
    }
    lemma_down_frame(s.right, t.right, z, slst);
    lemma_up_frame(s.left, t.left, z, slst);
    let l2 = lst.remove(m);
    assert forall|k: int| 0 <= k < l2.len() implies 1 <= #[trigger] l2[k] <= t.primary && act2.contains(l2[k]) by {
        assert(l2.contains(l2[k]));
        assert(lst.contains(l2[k]));
        let j = choose|j: int| 0 <= j < lst.len() && lst[j] == l2[k];
        assert(1 <= lst[j] <= s.primary && act.contains(lst[j]));
    }
    assert forall|c: int| #[trigger] act2.contains(c) implies (c <= t.primary ==> l2.contains(c)) && (c
        > t.primary ==> slst.contains(c)) by {
        assert(act.contains(c));
    }
    l2
}

/// Taking a secondary item `i`, still to cover, out of its list keeps the
/// lists, without `i`.
#[verifier::spinoff_prover]
proof fn lemma_lists_unlink_secondary(s: Net, act: Set<int>, lst: Seq<int>, slst: Seq<int>, i: int) -> (r: Seq<int>)
    requires
        lists_ok(s, act, lst, slst),
        act.contains(i),
        s.primary < i <= s.len,
    ensures
        lists_ok(s.unlink_item(i), act.remove(i), lst, r),
{
    let t = s.unlink_item(i);
    let act2 = act.remove(i);
    let z = s.len + 1;
    assert(slst.contains(i));
    let m = choose|m: int| 0 <= m < slst.len() && slst[m] == i;
    lemma_cycle_remove(s, z, slst, m);
    let b = before(z, slst, m);
    let a = after(z, slst, m);
    assert(b == z || s.primary < b <= s.len);
    assert(a == z || s.primary < a <= s.len);
    assert forall|k: int| 0 <= k < lst.len() implies t.right[#[trigger] lst[k]] == s.right[lst[k]] && t.left[lst[k]]
        == s.left[lst[k]] by {
        assert(lst[k] <= s.primary);
    }
    lemma_down_frame(s.right, t.right, 0, lst);
    lemma_up_frame(s.left, t.left, 0, lst);
    let l2 = slst.remove(m);
    assert forall|k: int| 0 <= k < l2.len() implies t.primary < #[trigger] l2[k] <= t.len by {
        assert(l2.contains(l2[k]));
        assert(slst.contains(l2[k]));
        let j = choose|j: int| 0 <= j < slst.len() && slst[j] == l2[k];
        assert(s.primary < slst[j] <= s.len);
    }
    assert forall|k: int| 0 <= k < lst.len() implies 1 <= #[trigger] lst[k] <= t.primary && act2.contains(lst[k]) by {
        assert(lst[k] <= s.primary);
    }
    assert forall|c: int| #[trigger] act2.contains(c) implies (c <= t.primary ==> lst.contains(c)) && (c
        > t.primary ==> l2.contains(c)) by {
        assert(act.contains(c));
    }
    l2
}

/// Taking item `i` out of its list, when it is still to cover, keeps the
/// lists, without `i`.
pub proof fn lemma_lists_unlink(s: Net, act: Set<int>, lst: Seq<int>, slst: Seq<int>, i: int) -> (r: (
    Seq<int>,
    Seq<int>,
))
    requires
        lists_ok(s, act, lst, slst),
        act.contains(i),
        1 <= i <= s.len,
    ensures
        lists_ok(s.unlink_item(i), act.remove(i), r.0, r.1),
{
    if i <= s.primary {
        (lemma_lists_unlink_primary(s, act, lst, slst, i), slst)
    } else {
        (lst, lemma_lists_unlink_secondary(s, act, lst, slst, i))
    }
}

/// Walking right from a node of the primary list meets only items of the
/// list.
proof fn lemma_walk_in_list(v: LinksV, act: Set<int>, lst: Seq<int>, slst: Seq<int>, p: int, fuel: nat)
    requires
        lists_ok(v.net, act, lst, slst),
        p == 0 || lst.contains(p),
    ensures
        forall|j: int| 0 <= j < walk(v, p, fuel).len() ==> lst.contains(#[trigger] walk(v, p, fuel)[j]),
    decreases fuel,
{
    if !(fuel == 0 || !(1 <= p <= v.net.len)) {
        let k = choose|k: int| 0 <= k < lst.len() && lst[k] == p;
        let q = v.net.right[p] as int;
        if k + 1 < lst.len() {
            assert(q == lst[k + 1]);
        } else {
            assert(q == 0);
        }
        lemma_walk_in_list(v, act, lst, slst, q, (fuel - 1) as nat);
        let w = walk(v, p, fuel);
        let rest = walk(v, q, (fuel - 1) as nat);
        assert(w == seq![p] + rest);
        assert forall|j: int| 0 <= j < w.len() implies lst.contains(#[trigger] w[j]) by {
            if j > 0 {
                assert(w[j] == rest[j - 1]);
            }
        }
    }
}

/// The items the chooser walks are items still to cover, and the head's
/// right link is one when the list is not empty.
pub proof fn lemma_active_items_in(v: LinksV, act: Set<int>, lst: Seq<int>, slst: Seq<int>, r: int)
    requires
        lists_ok(v.net, act, lst, slst),
        r == v.net.right[0] || active_items(v).contains(r),
        r != 0,
    ensures
        act.contains(r),
        1 <= r <= v.net.primary,
{
    if r == v.net.right[0] {
        assert(lst.len() > 0);
        assert(lst[0] == r);
    } else {
        let p = v.net.right[0] as int;
        if lst.len() > 0 {
            assert(lst[0] == p);
        }
        lemma_walk_in_list(v, act, lst, slst, p, v.net.ni() as nat);
        let j = choose|j: int| 0 <= j < active_items(v).len() && active_items(v)[j] == r;
        assert(lst.contains(active_items(v)[j]));
    }
    let k = choose|k: int| 0 <= k < lst.len() && lst[k] == r;
    assert(1 <= lst[k] <= v.net.primary && act.contains(lst[k]));
}

} // verus!
