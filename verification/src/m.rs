//! Algorithm M: exact cover with multiplicities.

use vstd::prelude::*;

use crate::links::{
    hide_walk, lemma_col_facts, lemma_end_spacers, lemma_frame_cols, lemma_frame_trans,
    lemma_item_wf, lemma_set_bound_wf, lemma_set_down_wf, lemma_set_hdr_wf, lemma_set_up_wf,
    lemma_spacer_facts, sat_sub, unhide_walk, Links, LinksV,
};
use crate::construct::{occurrences, assemble, init_left, init_right, item_links, zeros, OptArrays};
use crate::construct::{col_entries, column_net, lemma_column_same, node_count, options_shape};
use crate::covering::column;
use crate::links::Net;
use crate::spec_text::{
    bound_items, check_names, lemma_bound_items_err, names_ok, read_bound_item, resolve_options,
    string_views, zero_colored, Spec, SpecV,
};
use crate::x;
use crate::{Count, Dance, Data, Error, Link, OptOrder};

verus! {

/// `a - b`, saturating at the bounds of `isize`.
pub fn saturating_sub(a: isize, b: isize) -> (r: isize)
    ensures
        r == (if a - b > isize::MAX {
            isize::MAX as int
        } else if a - b < isize::MIN {
            isize::MIN as int
        } else {
            a - b
        }),
{
    if b < 0 {
        if a > isize::MAX + b {
            isize::MAX
        } else {
            a - b
        }
    } else {
        if a < isize::MIN + b {
            isize::MIN
        } else {
            a - b
        }
    }
}

/// Tweak entry `x` of item `p`: when `p` still has to be chosen hide the
/// option of `x`, then take `x` off the top of the column of `p`.
pub fn tweak(x: Link, p: Link, dance: &mut Links)
    requires
        old(dance)@.wf(),
        old(dance)@.net.is_opt(x as int),
        old(dance)@.net.is_hdr(p as int),
        old(dance)@.net.col_of(x as int) == p,
    ensures
        final(dance)@ == old(dance)@.tweak(x as int, p as int),
        final(dance)@.wf(),
        final(dance)@.net.same_frame(old(dance)@.net),
        final(dance)@.ft == old(dance)@.ft,
{
    let ghost s0 = dance@;
    if dance.bound[p] != 0 {
        let colored = dance.colored;
        hide_walk(x, dance, colored);
    }
    let ghost s1 = dance@;
    proof {
        lemma_frame_cols(s0.net, s1.net, x as int);
        lemma_frame_cols(s0.net, s1.net, p as int);
        lemma_col_facts(s1.net, x as int);
        lemma_col_facts(s1.net, p as int);
    }
    let d = dance.down[x];
    proof {
        let a = s1.net.set_down(p as int, d as int);
        lemma_set_down_wf(s1.net, p as int, d as int);
        lemma_frame_cols(s1.net, a, d as int);
        lemma_frame_cols(s1.net, a, p as int);
        lemma_set_up_wf(a, d as int, p as int);
        let b = a.set_up(d as int, p as int);
        lemma_frame_cols(a, b, p as int);
        lemma_set_hdr_wf(b, p as int, b.hdr[p as int].wrapping_sub(1));
        lemma_frame_trans(b, a, s1.net);
        lemma_frame_trans(b.set_hdr(p as int, b.hdr[p as int].wrapping_sub(1)), b, s1.net);
        lemma_frame_trans(b.set_hdr(p as int, b.hdr[p as int].wrapping_sub(1)), s1.net, s0.net);
    }
    dance.down.set(p, d);
    dance.up.set(d, p);
    let h = dance.hdr[p];
    dance.hdr.set(p, h.wrapping_sub(1));
}

/// Undo the tweaks of level `l`: the entries taken off the column since
/// `ft[l]` return to it (unhiding their options when `unblock`), and the
/// item is uncovered when it was blocked.
pub fn untweak(l: Count, unblock: bool, dance: &mut Links)
    requires
        old(dance)@.wf(),
        l < old(dance)@.ft.len(),
        old(dance)@.net.is_col(old(dance)@.ft[l as int] as int),
    ensures
        final(dance)@ == old(dance)@.untweak(l as int, unblock),
        final(dance)@.wf(),
        final(dance)@.net.same_frame(old(dance)@.net),
        final(dance)@.ft == old(dance)@.ft,
{
    let ghost s0 = dance@;
    let ftl = dance.ft[l];
    proof {
        lemma_col_facts(s0.net, ftl as int);
    }
    let p = if ftl <= dance.len {
        ftl
    } else {
        dance.hdr[ftl] as usize
    };
    proof {
        lemma_col_facts(s0.net, p as int);
    }
    let mut x = ftl;
    let mut y = p;
    let z = dance.down[p];
    proof {
        lemma_set_down_wf(s0.net, p as int, ftl as int);
    }
    dance.down.set(p, x);
    let ghost t = dance@;
    proof {
        lemma_frame_cols(s0.net, t.net, ftl as int);
        lemma_frame_cols(s0.net, t.net, p as int);
        lemma_frame_cols(s0.net, t.net, z as int);
    }
    let ghost r = t.untweak_walk(p as int, p as int, ftl as int, z as int, unblock, t.net.n() as nat);
    let n = dance.hdr.len();
    let mut fuel = n;
    let mut k: isize = 0;
    while x != z && fuel > 0
        invariant
            t.wf(),
            t.net.same_frame(s0.net),
            n == t.net.n(),
            t.net.is_hdr(p as int),
            t.net.is_col(z as int),
            t.net.col_of(z as int) == p,
            dance@.wf(),
            dance@.net.same_frame(t.net),
            dance@.ft == t.ft,
            dance@.net.is_col(x as int),
            dance@.net.col_of(x as int) == p,
            dance@.net.is_col(y as int),
            dance@.net.col_of(y as int) == p,
            fuel <= n,
            0 <= k <= n - fuel,
            r == t.untweak_walk(p as int, p as int, ftl as int, z as int, unblock, n as nat),
            ({
                let w = dance@.untweak_walk(p as int, y as int, x as int, z as int, unblock, fuel as nat);
                &&& w.0 == r.0
                &&& w.1 == r.1
                &&& w.2 + k == r.2
            }),
        decreases fuel,
    {
        let ghost before = dance@;
        proof {
            lemma_set_up_wf(dance@.net, x as int, y as int);
            lemma_frame_trans(dance@.net.set_up(x as int, y as int), dance@.net, t.net);
        }
        dance.up.set(x, y);
        k += 1;
        if unblock && x != p {
            let ghost mid = dance@;
            proof {
                lemma_frame_cols(before.net, mid.net, x as int);
            }
            let colored = dance.colored;
            unhide_walk(x, dance, colored);
            proof {
                lemma_frame_trans(dance@.net, mid.net, t.net);
            }
        }
        proof {
            lemma_frame_cols(t.net, dance@.net, x as int);
            lemma_col_facts(dance@.net, x as int);
        }
        y = x;
        x = dance.down[x];
        fuel -= 1;
    }
    let ghost after = dance@;
    proof {
        lemma_frame_cols(t.net, after.net, z as int);
        lemma_frame_cols(t.net, after.net, p as int);
        lemma_set_up_wf(after.net, z as int, y as int);
        let a = after.net.set_up(z as int, y as int);
        lemma_frame_cols(after.net, a, p as int);
        lemma_set_hdr_wf(a, p as int, a.hdr[p as int].wrapping_add(k));
        lemma_frame_trans(a, after.net, t.net);
        lemma_frame_trans(a.set_hdr(p as int, a.hdr[p as int].wrapping_add(k)), a, t.net);
        lemma_frame_trans(a.set_hdr(p as int, a.hdr[p as int].wrapping_add(k)), t.net, s0.net);
    }
    dance.up.set(z, y);
    let h = dance.hdr[p];
    dance.hdr.set(p, h.wrapping_add(k));
    if !unblock {
        let ghost last = dance@;
        crate::x::uncover(p, dance);
        proof {
            lemma_frame_trans(dance@.net, last.net, s0.net);
        }
    }
}

/// The branching degree of item `i` with multiplicities: the length of its
/// column plus one, less what the item still needs (`bound - slack`).
pub fn branch_degree(i: Link, dance: &Links) -> (r: Data)
    requires
        dance@.wf(),
        dance@.net.is_hdr(i as int),
    ensures
        r == sat_sub(
            dance@.net.hdr[i as int].wrapping_add(1) as int,
            sat_sub(dance@.net.bound[i as int] as int, dance@.net.slack[i as int] as int),
        ),
{
    proof {
        lemma_col_facts(dance@.net, i as int);
    }
    let need = saturating_sub(dance.bound[i], dance.slack[i]);
    saturating_sub(dance.hdr[i].wrapping_add(1), need)
}

/// Entering a new level: push a fresh first-tweak slot.
pub fn enter_level(dance: &mut Links, i: Link, l: Count, xl: Link)
    ensures
        final(dance)@ == (LinksV { ft: old(dance)@.ft.push(0), ..old(dance)@ }),
{
    dance.ft.push(0);
}

/// Before branching on item `i` at level `l`: one more choice of `i` is
/// spent; at zero `i` is covered, and the first entry `xl` is remembered
/// when tweaks will follow.
pub fn prepare_to_branch(dance: &mut Links, i: Link, l: Count, xl: Link)
    requires
        old(dance)@.wf(),
        old(dance)@.net.is_hdr(i as int),
        l < old(dance)@.ft.len(),
    ensures
        final(dance)@ == old(dance)@.m_prepare(i as int, l as int, xl),
        final(dance)@.wf(),
        final(dance)@.net.same_frame(old(dance)@.net),
        final(dance)@.ft.len() == old(dance)@.ft.len(),
{
    let ghost s0 = dance@;
    proof {
        lemma_set_bound_wf(s0.net, i as int, s0.net.bound[i as int].wrapping_sub(1));
    }
    let b = dance.bound[i];
    dance.bound.set(i, b.wrapping_sub(1));
    if dance.bound[i] == 0 {
        let ghost s1 = dance@;
        crate::x::cover(i, dance);
        proof {
            lemma_frame_trans(dance@.net, s1.net, s0.net);
        }
        if dance.slack[i] != 0 {
            dance.ft.set(l, xl);
        }
    } else {
        dance.ft.set(l, xl);
    }
}

/// Commit, with multiplicities, the items of the option of entry `x`.
pub(crate) fn m_commit_walk(x: Link, dance: &mut Links)
    requires
        old(dance)@.wf(),
        old(dance)@.net.is_opt(x as int),
    ensures
        final(dance)@ == old(dance)@.m_commit_from(x as int, x + 1, old(dance)@.net.n()),
        final(dance)@.wf(),
        final(dance)@.net.same_frame(old(dance)@.net),
        final(dance)@.ft == old(dance)@.ft,
{
    let ghost s0 = dance@;
    let ghost n = dance@.net.n();
    proof {
        lemma_col_facts(dance@.net, x as int);
    }
    let mut p = x + 1;
    while p != x
        invariant
            s0.wf(),
            s0.net.is_opt(x as int),
            n == s0.net.n(),
            dance@.wf(),
            dance@.net.same_frame(s0.net),
            dance@.ft == s0.ft,
            dance@.net.len + 2 <= p < n,
            p > x ==> forall|y: int| x <= y < p ==> #[trigger] dance@.net.hdr[y] > 0,
            p < x ==> forall|y: int| p <= y <= x ==> #[trigger] dance@.net.hdr[y] > 0,
            dance@.m_commit_from(x as int, p as int, n) == s0.m_commit_from(x as int, x + 1, n),
        decreases (if p > x {
            2 * n - p
        } else {
            x - p
        }),
    {
        let j = dance.hdr[p];
        if j <= 0 {
            proof {
                lemma_spacer_facts(dance@.net, p as int);
                let u = dance@.net.up[p as int] as int;
                if u > x {
                    assert(dance@.net.hdr[u - 1] > 0);
                }
            }
            p = dance.up[p];
        } else {
            let ghost before = dance@;
            proof {
                assert(dance@.net.is_opt(p as int));
                lemma_col_facts(dance@.net, p as int);
            }
            let ju = j as usize;
            if ju <= dance.primary {
                proof {
                    lemma_set_bound_wf(before.net, ju as int, before.net.bound[ju as int].wrapping_sub(1));
                }
                let b = dance.bound[ju];
                dance.bound.set(ju, b.wrapping_sub(1));
                if dance.bound[ju] == 0 {
                    let ghost mid = dance@;
                    crate::x::cover(ju, dance);
                    proof {
                        lemma_frame_trans(dance@.net, mid.net, before.net);
                    }
                }
            } else if dance.colored {
                crate::c::commit(p, ju, dance);
            } else {
                crate::x::commit(p, ju, dance);
            }
            proof {
                lemma_frame_trans(dance@.net, before.net, s0.net);
                assert forall|y: int| dance@.net.len + 1 <= y < n implies #[trigger] dance@.net.hdr[y]
                    == before.net.hdr[y] by {}
            }
            p += 1;
        }
    }
}

/// Uncommit, with multiplicities, the items of the option of entry `x`,
/// walking backwards.
pub(crate) fn m_uncommit_walk(x: Link, dance: &mut Links)
    requires
        old(dance)@.wf(),
        old(dance)@.net.is_opt(x as int),
    ensures
        final(dance)@ == old(dance)@.m_uncommit_from(x as int, x - 1, old(dance)@.net.n()),
        final(dance)@.wf(),
        final(dance)@.net.same_frame(old(dance)@.net),
        final(dance)@.ft == old(dance)@.ft,
{
    let ghost s0 = dance@;
    let ghost n = dance@.net.n();
    let mut p = x - 1;
    while p != x
        invariant
            s0.wf(),
            s0.net.is_opt(x as int),
            n == s0.net.n(),
            dance@.wf(),
            dance@.net.same_frame(s0.net),
            dance@.ft == s0.ft,
            dance@.net.len + 1 <= p < n,
            p < x ==> forall|y: int| p < y <= x ==> #[trigger] dance@.net.hdr[y] > 0,
            p > x ==> forall|y: int| x <= y <= p ==> #[trigger] dance@.net.hdr[y] > 0,
            dance@.m_uncommit_from(x as int, p as int, n) == s0.m_uncommit_from(x as int, x - 1, n),
        decreases (if p < x {
            n + p
        } else {
            p - x
        }),
    {
        let j = dance.hdr[p];
        if j <= 0 {
            proof {
                lemma_spacer_facts(dance@.net, p as int);
                let dd = dance@.net.down[p as int] as int;
                if dd < x {
                    assert(dance@.net.hdr[dd + 1] > 0);
                }
            }
            p = dance.down[p];
        } else {
            let ghost before = dance@;
            proof {
                lemma_end_spacers(dance@.net);
                assert(dance@.net.is_opt(p as int));
                lemma_col_facts(dance@.net, p as int);
            }
            let ju = j as usize;
            if ju <= dance.primary {
                proof {
                    lemma_set_bound_wf(before.net, ju as int, before.net.bound[ju as int].wrapping_add(1));
                }
                let b = dance.bound[ju];
                dance.bound.set(ju, b.wrapping_add(1));
                if dance.bound[ju] == 1 {
                    let ghost mid = dance@;
                    crate::x::uncover(ju, dance);
                    proof {
                        lemma_frame_trans(dance@.net, mid.net, before.net);
                    }
                }
            } else if dance.colored {
                crate::c::uncommit(p, ju, dance);
            } else {
                crate::x::uncommit(p, ju, dance);
            }
            proof {
                lemma_frame_trans(dance@.net, before.net, s0.net);
                assert forall|y: int| dance@.net.len + 1 <= y < n implies #[trigger] dance@.net.hdr[y]
                    == before.net.hdr[y] by {}
            }
            p -= 1;
        }
    }
}

/// Try entry `xl` of item `i` at level `l`, with multiplicities. Fails
/// when `i` needs no more entries and `xl` is its header, or when the
/// column is too short for what `i` still needs; otherwise the entry is
/// tweaked away (or `i` leaves the item list) and the other items of its
/// option are committed.
pub fn try_item(dance: &mut Links, i: Link, l: Count, xl: Link) -> (r: bool)
    requires
        old(dance)@.wf(),
        old(dance)@.net.is_hdr(i as int),
        old(dance)@.net.is_col(xl as int),
        old(dance)@.net.col_of(xl as int) == i,
    ensures
        r == old(dance)@.m_try_ok(i as int, xl as int),
        final(dance)@ == old(dance)@.m_try(i as int, xl as int),
        final(dance)@.wf(),
        final(dance)@.net.same_frame(old(dance)@.net),
        final(dance)@.ft == old(dance)@.ft,
{
    let ghost s0 = dance@;
    proof {
        lemma_col_facts(s0.net, i as int);
    }
    if dance.slack[i] == 0 && dance.bound[i] == 0 {
        if xl == i {
            return false;
        }
    } else if dance.hdr[i] <= dance.bound[i].wrapping_sub(dance.slack[i]) {
        return false;
    } else if xl != i {
        tweak(xl, i, dance);
    } else if dance.bound[i] != 0 {
        proof {
            lemma_item_wf(s0.net, i as int);
        }
        let p = dance.left[i];
        let q = dance.right[i];
        dance.right.set(p, q);
        dance.left.set(q, p);
    }
    if xl != i {
        let ghost s1 = dance@;
        proof {
            lemma_frame_cols(s0.net, s1.net, xl as int);
        }
        m_commit_walk(xl, dance);
        proof {
            lemma_frame_trans(dance@.net, s1.net, s0.net);
        }
    }
    true
}

/// Leave entry `xl` of item `i` at level `l` for the next one, with
/// multiplicities: undo its commits and try the next entry; when `xl` is
/// the header, `i` returns to the item list. When nothing is left to try,
/// the item is restored.
pub fn try_again(dance: &mut Links, i: Link, l: Count, xl: &mut Link) -> (r: bool)
    requires
        old(dance)@.wf(),
        old(dance)@.net.is_col(*old(xl) as int),
        *old(xl) > old(dance)@.net.len ==> old(dance)@.net.is_hdr(i as int) && old(
            dance,
        )@.net.col_of(*old(xl) as int) == i,
    ensures
        *old(xl) > old(dance)@.net.len ==> ({
            let t = old(dance)@.m_uncommit_from(
                *old(xl) as int,
                *old(xl) - 1,
                old(dance)@.net.n(),
            );
            let next = t.net.down[*old(xl) as int];
            &&& *final(xl) == next
            &&& r == t.m_try_ok(i as int, next as int)
            &&& r ==> final(dance)@ == t.m_try(i as int, next as int)
            &&& !r ==> final(dance)@ == t.m_restore(i as int, l as int)
        }),
        *old(xl) <= old(dance)@.net.len ==> ({
            &&& *final(xl) == *old(xl)
            &&& !r
            &&& final(dance)@ == old(dance)@.with_net(
                old(dance)@.net.relink_item(*old(xl) as int),
            ).m_restore(*old(xl) as int, l as int)
        }),
        final(dance)@.net.is_col(*final(xl) as int),
        final(dance)@.wf(),
        final(dance)@.net.same_frame(old(dance)@.net),
        final(dance)@.ft == old(dance)@.ft,
{
    let ghost s0 = dance@;
    let mut i = i;
    let again = if *xl > dance.len {
        proof {
            lemma_end_spacers(s0.net);
        }
        m_uncommit_walk(*xl, dance);
        proof {
            lemma_frame_cols(s0.net, dance@.net, *xl as int);
            lemma_frame_cols(s0.net, dance@.net, i as int);
            lemma_col_facts(dance@.net, *xl as int);
        }
        *xl = dance.down[*xl];
        let ghost mid = dance@;
        let a = try_item(dance, i, l, *xl);
        proof {
            lemma_frame_trans(dance@.net, mid.net, s0.net);
            lemma_frame_cols(mid.net, dance@.net, *xl as int);
        }
        a
    } else {
        i = *xl;
        proof {
            lemma_item_wf(s0.net, i as int);
        }
        let p = dance.left[i];
        let q = dance.right[i];
        dance.right.set(p, i);
        dance.left.set(q, i);
        false
    };
    if !again {
        let ghost mid2 = dance@;
        proof {
            lemma_frame_cols(s0.net, mid2.net, i as int);
        }
        restore_item(dance, i, l, *xl);
        proof {
            lemma_frame_trans(dance@.net, mid2.net, s0.net);
            lemma_frame_cols(mid2.net, dance@.net, *xl as int);
            lemma_frame_cols(s0.net, mid2.net, *xl as int);
        }
    }
    again
}

/// Restore item `i` at level `l`, with multiplicities: uncover it when it
/// was covered outright, otherwise undo the tweaks of the level; then give
/// back the choice spent on it.
pub fn restore_item(dance: &mut Links, i: Link, l: Count, xl: Link)
    requires
        old(dance)@.wf(),
        old(dance)@.net.is_hdr(i as int),
    ensures
        final(dance)@ == old(dance)@.m_restore(i as int, l as int),
        final(dance)@.wf(),
        final(dance)@.net.same_frame(old(dance)@.net),
        final(dance)@.ft == old(dance)@.ft,
{
    let ghost s0 = dance@;
    if dance.bound[i] == 0 && dance.slack[i] == 0 {
        crate::x::uncover(i, dance);
    } else if l < dance.ft.len() && dance.is_col_node(dance.ft[l]) {
        let unblock = dance.bound[i] != 0;
        untweak(l, unblock, dance);
    }
    let ghost s1 = dance@;
    proof {
        lemma_frame_cols(s0.net, s1.net, i as int);
        lemma_set_bound_wf(s1.net, i as int, s1.net.bound[i as int].wrapping_add(1));
        lemma_frame_trans(s1.net.set_bound(i as int, s1.net.bound[i as int].wrapping_add(1)), s1.net, s0.net);
    }
    let b = dance.bound[i];
    dance.bound.set(i, b.wrapping_add(1));
}


/// An item node with multiplicities: its links, its slack (the number of
/// times it may go uncovered beyond its lower bound) and its bound (the
/// number of times it may still be covered).
#[derive(Copy, Clone, Debug, Default, PartialEq, Eq)]
pub struct INode {
    pub left: Link,
    pub right: Link,
    pub slack: Data,
    pub bound: Data,
}

/// The item nodes of a problem with multiplicities.
#[derive(Clone, Debug, Default, PartialEq, Eq)]
pub struct INodes {
    pub nodes: Vec<INode>,
    pub primary: Count,
    pub len: Count,
}

/// The left links of item nodes with multiplicities.
pub open spec fn lefts(s: Seq<INode>) -> Seq<Link> {
    s.map_values(|v: INode| v.left)
}

/// The right links of item nodes with multiplicities.
pub open spec fn rights(s: Seq<INode>) -> Seq<Link> {
    s.map_values(|v: INode| v.right)
}

/// The slacks of item nodes.
pub open spec fn slacks(s: Seq<INode>) -> Seq<Data> {
    s.map_values(|v: INode| v.slack)
}

/// The bounds of item nodes.
pub open spec fn bounds(s: Seq<INode>) -> Seq<Data> {
    s.map_values(|v: INode| v.bound)
}

/// Item node `i` of `np + ns` items whose first `np` are primary with
/// multiplicities `ps`.
pub open spec fn init_node(ps: Seq<(Data, Data)>, ns: int, i: int) -> INode {
    let np = ps.len() as int;
    INode {
        left: init_left(np, np + ns, i) as Link,
        right: init_right(np, np + ns, i) as Link,
        slack: if 1 <= i <= np {
            ps[i - 1].1.wrapping_sub(ps[i - 1].0)
        } else {
            0
        },
        bound: if 1 <= i <= np {
            ps[i - 1].1
        } else {
            0
        },
    }
}

impl INodes {
    /// Primary items with multiplicities `ps` (a lower and an upper bound
    /// each) followed by `ns` secondary items; the slack of an item is the
    /// difference of its bounds, wrapping around the range of `isize`.
    pub fn new(ps: &[(Data, Data)], ns: Count) -> (r: INodes)
        requires
            ps@.len() + ns < isize::MAX,
        ensures
            r.primary == ps@.len(),
            r.len == ps@.len() + ns,
            r.nodes@.len() == ps@.len() + ns + 2,
            forall|i: int|
                0 <= i < ps@.len() + ns + 2 ==> #[trigger] r.nodes@[i] == init_node(ps@, ns as int, i),
    {
        let np = ps.len();
        let n = np + ns;
        let (left, right) = item_links(np, n);
        let mut nodes: Vec<INode> = Vec::new();
        let mut i: usize = 0;
        while i < n + 2
            invariant
                np == ps@.len(),
                n == np + ns,
                n < isize::MAX,
                left@.len() == n + 2,
                right@.len() == n + 2,
                forall|j: int| 0 <= j < n + 2 ==> #[trigger] left@[j] == init_left(np as int, n as int, j),
                forall|j: int| 0 <= j < n + 2 ==> #[trigger] right@[j] == init_right(np as int, n as int, j),
                i <= n + 2,
                nodes@.len() == i,
                forall|j: int| 0 <= j < i ==> #[trigger] nodes@[j] == init_node(ps@, ns as int, j),
            decreases n + 2 - i,
        {
            let (slack, bound) = if 1 <= i && i <= np {
                let (u, v) = ps[i - 1];
                (v.wrapping_sub(u), v)
            } else {
                (0, 0)
            };
            nodes.push(INode { left: left[i], right: right[i], slack, bound });
            i += 1;
        }
        INodes { nodes, primary: np, len: n }
    }
}

/// The fields of item nodes with multiplicities, in four vectors.
pub fn item_vecs(items: &INodes) -> (r: (Vec<Link>, Vec<Link>, Vec<Data>, Vec<Data>))
    ensures
        r.0@ == lefts(items.nodes@),
        r.1@ == rights(items.nodes@),
        r.2@ == slacks(items.nodes@),
        r.3@ == bounds(items.nodes@),
{
    let mut left: Vec<Link> = Vec::new();
    let mut right: Vec<Link> = Vec::new();
    let mut slack: Vec<Data> = Vec::new();
    let mut bound: Vec<Data> = Vec::new();
    let mut i: usize = 0;
    while i < items.nodes.len()
        invariant
            i <= items.nodes@.len(),
            left@.len() == i,
            right@.len() == i,
            slack@.len() == i,
            bound@.len() == i,
            forall|j: int| 0 <= j < i ==> #[trigger] left@[j] == items.nodes@[j].left,
            forall|j: int| 0 <= j < i ==> #[trigger] right@[j] == items.nodes@[j].right,
            forall|j: int| 0 <= j < i ==> #[trigger] slack@[j] == items.nodes@[j].slack,
            forall|j: int| 0 <= j < i ==> #[trigger] bound@[j] == items.nodes@[j].bound,
        decreases items.nodes@.len() - i,
    {
        let v = items.nodes[i];
        left.push(v.left);
        right.push(v.right);
        slack.push(v.slack);
        bound.push(v.bound);
        i += 1;
    }
    proof {
        assert(left@ =~= lefts(items.nodes@));
        assert(right@ =~= rights(items.nodes@));
        assert(slack@ =~= slacks(items.nodes@));
        assert(bound@ =~= bounds(items.nodes@));
    }
    (left, right, slack, bound)
}

/// The item nodes with multiplicities of a problem's nodes.
pub fn items_of(core: &Links) -> (r: INodes)
    requires
        core.right@.len() == core.left@.len(),
        core.slack@.len() == core.left@.len(),
        core.bound@.len() == core.left@.len(),
    ensures
        lefts(r.nodes@) == core@.net.left,
        rights(r.nodes@) == core@.net.right,
        slacks(r.nodes@) == core@.net.slack,
        bounds(r.nodes@) == core@.net.bound,
        r.primary == core.primary,
        r.len == core.len,
{
    let mut nodes: Vec<INode> = Vec::new();
    let mut i: usize = 0;
    while i < core.left.len()
        invariant
            core.right@.len() == core.left@.len(),
            core.slack@.len() == core.left@.len(),
            core.bound@.len() == core.left@.len(),
            i <= core.left@.len(),
            nodes@.len() == i,
            forall|j: int|
                0 <= j < i ==> #[trigger] nodes@[j] == (INode {
                    left: core.left@[j],
                    right: core.right@[j],
                    slack: core.slack@[j],
                    bound: core.bound@[j],
                }),
        decreases core.left@.len() - i,
    {
        nodes.push(
            INode { left: core.left[i], right: core.right[i], slack: core.slack[i], bound: core.bound[i] },
        );
        i += 1;
    }
    proof {
        assert(lefts(nodes@) =~= core.left@);
        assert(rights(nodes@) =~= core.right@);
        assert(slacks(nodes@) =~= core.slack@);
        assert(bounds(nodes@) =~= core.bound@);
    }
    INodes { nodes, primary: core.primary, len: core.len }
}

/// An exact cover problem with multiplicities.
pub struct Problem {
    core: Links,
}

impl Problem {
    /// The problem with item nodes `items` and option nodes `opts`.
    pub fn new(items: INodes, opts: x::ONodes) -> (r: Problem)
        ensures
            r.dance_view() == (LinksV {
                net: Net {
                    left: lefts(items.nodes@),
                    right: rights(items.nodes@),
                    slack: slacks(items.nodes@),
                    bound: bounds(items.nodes@),
                    hdr: x::hdrs(opts.nodes@),
                    up: x::ups(opts.nodes@),
                    down: x::downs(opts.nodes@),
                    color: Seq::new(opts.nodes@.len(), |i: int| 0isize),
                    primary: items.primary,
                    len: items.len,
                    colored: false,
                    multi: true,
                },
                ft: Seq::empty(),
                updates: 0,
            }),
    {
        let (left, right, slack, bound) = item_vecs(&items);
        let (hdr, up, down) = x::option_vecs(&opts);
        let color = zeros(opts.nodes.len());
        let core = assemble(left, right, slack, bound, OptArrays { hdr, up, down, color }, items.primary, items.len, false, true);
        proof {
            assert(core@.net.color =~= Seq::new(opts.nodes@.len(), |i: int| 0isize));
        }
        Problem { core }
    }

    /// The item nodes as they are now.
    pub fn items(&self) -> (r: INodes)
        requires
            self.dance_view().net.right.len() == self.dance_view().net.left.len(),
            self.dance_view().net.slack.len() == self.dance_view().net.left.len(),
            self.dance_view().net.bound.len() == self.dance_view().net.left.len(),
        ensures
            lefts(r.nodes@) == self.dance_view().net.left,
            rights(r.nodes@) == self.dance_view().net.right,
            slacks(r.nodes@) == self.dance_view().net.slack,
            bounds(r.nodes@) == self.dance_view().net.bound,
            r.primary == self.dance_view().net.primary,
            r.len == self.dance_view().net.len,
    {
        items_of(&self.core)
    }

    /// The option nodes as they are now.
    pub fn opts(&self) -> (r: x::ONodes)
        requires
            self.dance_view().net.up.len() == self.dance_view().net.hdr.len(),
            self.dance_view().net.down.len() == self.dance_view().net.hdr.len(),
        ensures
            x::hdrs(r.nodes@) == self.dance_view().net.hdr,
            x::ups(r.nodes@) == self.dance_view().net.up,
            x::downs(r.nodes@) == self.dance_view().net.down,
    {
        x::opts_of(&self.core)
    }
}

/// The names of the items: those of the primary items read with their
/// bounds, then the secondary ones.
pub open spec fn bound_names(mi: Seq<(Seq<char>, isize, isize)>, sec: Seq<Seq<char>>) -> Seq<
    Seq<char>,
> {
    mi.map_values(|x: (Seq<char>, isize, isize)| x.0) + sec
}

/// The bounds of the primary items read with their bounds.
pub open spec fn bound_pairs(mi: Seq<(Seq<char>, isize, isize)>) -> Seq<(Data, Data)> {
    mi.map_values(|x: (Seq<char>, isize, isize)| (x.1, x.2))
}

impl INodes {
    /// The item nodes of the items of `spec`, primary items with their
    /// multiplicities, and the items' names: the errors of [`bound_item`]
    /// for the first failing primary item, then those of the names.
    pub fn from_spec(spec: &Spec) -> (r: Result<(INodes, Vec<String>), Error>)
        requires
            spec.primary@.len() + spec.secondary@.len() < isize::MAX,
        ensures
            match r {
                Ok((items, names)) => {
                    let np = spec.primary@.len();
                    let ns = spec.secondary@.len();
                    &&& bound_items(spec@.primary) matches Ok(mi)
                    &&& check_names(bound_names(mi, spec@.secondary)) == Ok::<(), Error>(())
                    &&& string_views(names@) == bound_names(mi, spec@.secondary)
                    &&& names@.len() == np + ns
                    &&& items.primary == np
                    &&& items.len == np + ns
                    &&& items.nodes@.len() == np + ns + 2
                    &&& forall|i: int|
                        0 <= i < np + ns + 2 ==> #[trigger] items.nodes@[i] == init_node(
                            bound_pairs(mi),
                            ns as int,
                            i,
                        )
                },
                Err(e) => bound_items(spec@.primary) == Err::<
                    Seq<(Seq<char>, isize, isize)>,
                    Error,
                >(e) || (bound_items(spec@.primary) matches Ok(mi) && check_names(
                    bound_names(mi, spec@.secondary),
                ) == Err::<(), Error>(e)),
            },
    {
        let ghost pv = spec@.primary;
        let mut names: Vec<String> = Vec::new();
        let mut ps: Vec<(Data, Data)> = Vec::new();
        let ghost mut mi: Seq<(Seq<char>, isize, isize)> = Seq::empty();
        let mut k: usize = 0;
        proof {
            assert(pv.take(0) =~= Seq::<Seq<char>>::empty());
        }
        while k < spec.primary.len()
            invariant
                pv == spec@.primary,
                k <= pv.len(),
                bound_items(pv.take(k as int)) == Ok::<Seq<(Seq<char>, isize, isize)>, Error>(mi),
                mi.len() == k,
                names@.len() == k,
                ps@.len() == k,
                forall|j: int|
                    0 <= j < k ==> #[trigger] mi[j] == (names@[j]@, ps@[j].0, ps@[j].1),
            decreases pv.len() - k,
        {
            proof {
                assert(pv.take(k + 1).drop_last() =~= pv.take(k as int));
                assert(pv.take(k + 1).last() == spec.primary@[k as int]@);
            }
            match read_bound_item(&spec.primary[k]) {
                Err(e) => {
                    proof {
                        lemma_bound_items_err(pv, k + 1, e);
                    }
                    return Err(e);
                },
                Ok((name, u, v)) => {
                    proof {
                        mi = mi.push((name@, u, v));
                    }
                    names.push(name);
                    ps.push((u, v));
                },
            }
            k += 1;
        }
        proof {
            assert(pv.take(k as int) =~= pv);
            assert(mi.map_values(|x: (Seq<char>, isize, isize)| x.0) =~= string_views(names@));
            assert(bound_pairs(mi) =~= ps@);
        }
        let mut j: usize = 0;
        while j < spec.secondary.len()
            invariant
                j <= spec.secondary@.len(),
                string_views(names@) == mi.map_values(|x: (Seq<char>, isize, isize)| x.0)
                    + string_views(spec.secondary@).take(j as int),
            decreases spec.secondary@.len() - j,
        {
            let ghost old_names = names@;
            names.push(spec.secondary[j].clone());
            proof {
                assert(string_views(names@) =~= string_views(old_names).push(
                    spec.secondary@[j as int]@,
                ));
                assert(string_views(spec.secondary@).take(j + 1) =~= string_views(
                    spec.secondary@,
                ).take(j as int).push(spec.secondary@[j as int]@));
            }
            j += 1;
        }
        proof {
            assert(string_views(spec.secondary@).take(j as int) =~= string_views(spec.secondary@));
        }
        match names_ok(&names) {
            Err(e) => Err(e),
            Ok(()) => Ok((INodes::new(&ps, spec.secondary.len()), names)),
        }
    }
}

/// The error of reading a problem with multiplicities from `sp`: that of
/// the first failing primary item, else of the names, else of the options,
/// else `TooLarge` when the nodes would be `isize::MAX` or more.
pub open spec fn spec_error(sp: SpecV, n: int, e: Error) -> bool {
    match bound_items(sp.primary) {
        Err(e2) => e == e2,
        Ok(mi) => {
            let names = bound_names(mi, sp.secondary);
            match check_names(names) {
                Err(e2) => e == e2,
                Ok(_) => match resolve_options(names, sp.opts) {
                    Err(e2) => e == e2,
                    Ok(is) => node_count(n, zero_colored(is)) >= isize::MAX && e == Error::TooLarge,
                },
            }
        },
    }
}

impl Problem {
    /// The problem with multiplicities of `spec`: the errors of
    /// [`INodes::from_spec`], then those of [`x::ONodes::from_spec`].
    pub fn from_spec(spec: &Spec, order: OptOrder) -> (r: Result<Problem, Error>)
        requires
            spec.primary@.len() + spec.secondary@.len() < isize::MAX,
            order is Rnd ==> (bound_items(spec@.primary) matches Ok(mi) ==> (resolve_options(
                bound_names(mi, spec@.secondary),
                spec@.opts,
            ) matches Ok(is) ==> forall|c: int|
                0 <= c < spec.primary@.len() + spec.secondary@.len() ==> #[trigger] occurrences(
                    zero_colored(is),
                    c,
                ) < 0x8000_0000)),
        ensures
            ({
                let np = spec.primary@.len();
                let ns = spec.secondary@.len();
                let n = np + ns;
                match r {
                    Ok(p) => {
                        &&& bound_items(spec@.primary) matches Ok(mi)
                        &&& check_names(bound_names(mi, spec@.secondary)) == Ok::<(), Error>(())
                        &&& resolve_options(bound_names(mi, spec@.secondary), spec@.opts) matches Ok(is)
                        &&& node_count(n as int, zero_colored(is)) < isize::MAX
                        &&& p.dance_view().net.primary == np
                        &&& p.dance_view().net.len == n
                        &&& p.dance_view().net.multi
                        &&& !p.dance_view().net.colored
                        &&& p.dance_view().ft == Seq::<Link>::empty()
                        &&& p.dance_view().updates == 0
                        &&& p.dance_view().net.left.len() == n + 2
                        &&& forall|i: int|
                            0 <= i < n + 2 ==> {
                                let node = init_node(bound_pairs(mi), ns as int, i);
                                &&& #[trigger] p.dance_view().net.left[i] == node.left
                                &&& p.dance_view().net.right[i] == node.right
                                &&& p.dance_view().net.slack[i] == node.slack
                                &&& p.dance_view().net.bound[i] == node.bound
                            }
                        &&& options_shape(
                            n as Count,
                            zero_colored(is),
                            p.dance_view().net.hdr,
                            p.dance_view().net.up,
                            p.dance_view().net.down,
                        )
                        &&& order is Sequential ==> forall|c: int|
                            1 <= c <= n ==> column(
                                p.dance_view().net,
                                c,
                                #[trigger] col_entries(n as int, zero_colored(is), c, is.len() as int, 0),
                            )
                    },
                    Err(e) => spec_error(spec@, n as int, e),
                }
            }),
    {
        let ghost seq_order = order is Sequential;
        let (items, names) = INodes::from_spec(spec)?;
        let opts = x::ONodes::from_spec(spec, &names, order)?;
        let ghost gi = items;
        let ghost go = opts;
        let p = Problem::new(items, opts);
        proof {
            let np = spec.primary@.len();
            let ns = spec.secondary@.len();
            let mi = bound_items(spec@.primary)->Ok_0;
            let n = np + ns;
            let is = resolve_options(bound_names(mi, spec@.secondary), spec@.opts)->Ok_0;
            if seq_order {
                assert forall|c: int| 1 <= c <= n implies column(
                    p.dance_view().net,
                    c,
                    #[trigger] col_entries(n as int, zero_colored(is), c, is.len() as int, 0),
                ) by {
                    let l = col_entries(n as int, zero_colored(is), c, is.len() as int, 0);
                    assert(column(column_net(n as Count, x::hdrs(go.nodes@), x::ups(go.nodes@), x::downs(go.nodes@)), c, l));
                    lemma_column_same(
                        column_net(n as Count, x::hdrs(go.nodes@), x::ups(go.nodes@), x::downs(go.nodes@)),
                        p.dance_view().net,
                        c,
                        l,
                    );
                }
            }
            assert forall|i: int| 0 <= i < np + ns + 2 implies {
                let node = init_node(bound_pairs(mi), ns as int, i);
                &&& #[trigger] p.dance_view().net.left[i] == node.left
                &&& p.dance_view().net.right[i] == node.right
                &&& p.dance_view().net.slack[i] == node.slack
                &&& p.dance_view().net.bound[i] == node.bound
            } by {
                assert(gi.nodes@[i] == init_node(bound_pairs(mi), ns as int, i));
            }
        }
        Ok(p)
    }
}

impl crate::Dance for Problem {
    closed spec fn dance_view(&self) -> LinksV {
        self.core@
    }

    fn links(&self) -> (r: &Links) {
        &self.core
    }

    fn updates(&self) -> (r: isize) {
        self.core.updates
    }

    fn set_updates(&mut self, v: isize) {
        self.core.updates = v;
    }

    fn cover(&mut self, i: Link) {
        self.core.cover_item(i);
    }

    fn commit(&mut self, p: Link, j: Link) {
        self.core.commit_entry(p, j);
    }

    fn uncover(&mut self, i: Link) {
        self.core.uncover_item(i);
    }

    fn uncommit(&mut self, p: Link, j: Link) {
        self.core.uncommit_entry(p, j);
    }

    fn hide_option(&mut self, p: Link) {
        self.core.hide_entry(p);
    }

    fn unhide(&mut self, p: Link) {
        self.core.unhide_entry(p);
    }

    fn branch_degree(&self, i: Link) -> (r: Data) {
        self.core.degree(i)
    }
}

impl crate::Solve for Problem {
    fn enter_level(&mut self, i: Link, l: Count, xl: Link) {
        self.core.enter(i, l, xl);
    }

    fn prepare_to_branch(&mut self, i: Link, l: Count, xl: Link) {
        self.core.prepare(i, l, xl);
    }

    fn try_item(&mut self, i: Link, l: Count, xl: Link) -> (r: bool) {
        self.core.try_entry(i, l, xl)
    }

    fn try_again(&mut self, i: Link, l: Count, xl: &mut Link) -> (r: bool) {
        self.core.retry(i, l, xl)
    }

    fn restore_item(&mut self, i: Link, l: Count, xl: Link) {
        self.core.restore(i, l, xl);
    }
}


impl crate::Items for INodes {
    closed spec fn lefts_of(&self) -> Seq<Link> {
        lefts(self.nodes@)
    }

    closed spec fn rights_of(&self) -> Seq<Link> {
        rights(self.nodes@)
    }

    closed spec fn primary_of(&self) -> Count {
        self.primary
    }

    closed spec fn len_of(&self) -> Count {
        self.len
    }

    fn llink(&self, i: Link) -> (r: Link) {
        self.nodes[i].left
    }

    fn rlink(&self, i: Link) -> (r: Link) {
        self.nodes[i].right
    }

    fn primary(&self) -> (r: Count) {
        self.primary
    }

    fn len(&self) -> (r: Count) {
        self.len
    }
}

impl crate::ItemsM for INodes {
    closed spec fn bounds_of(&self) -> Seq<Data> {
        bounds(self.nodes@)
    }

    closed spec fn slacks_of(&self) -> Seq<Data> {
        slacks(self.nodes@)
    }

    fn bound(&self, i: Link) -> (r: Data) {
        self.nodes[i].bound
    }

    fn slack(&self, i: Link) -> (r: Data) {
        self.nodes[i].slack
    }
}

impl crate::DanceM for Problem {
    fn tweak(&mut self, x: Link, p: Link) {
        crate::m::tweak(x, p, &mut self.core);
    }

    fn untweak(&mut self, l: Count, unblock: bool) {
        crate::m::untweak(l, unblock, &mut self.core);
    }

    fn ft(&self) -> (r: &Vec<Link>) {
        &self.core.ft
    }
}

impl crate::SolveM for Problem {
}

} // verus!
