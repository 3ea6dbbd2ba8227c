//! Algorithm X: exact cover.

use vstd::prelude::*;

use crate::links::{
    hide_walk, lemma_col_facts, lemma_end_spacers, lemma_frame_cols, lemma_frame_trans,
    lemma_item_wf, lemma_spacer_facts, unhide_walk, Links,
};
use crate::covering::column;
use crate::construct::{
    assemble, build_options, col_entries, column_net, columns_ok, cycles, lemma_column_same, init_left, init_right, item_links, lemma_same_options,
    node_count, opt_seqs, options_shape, zeros, OptArrays,
};
use crate::construct::{fits, lemma_node_count_ge, lemma_node_count_lens, occurrences, seqs_of};
use crate::fresh::{law_x_tracked, no_repeats};
use crate::solver::tracked_start;
use crate::links::{LinksV, Net};
use crate::spec_text::{
    check_names, index_views, lemma_resolve_options_distinct, lemma_resolve_options_bound, names_ok, resolve_all,
    resolve_options, string_views, zero_colored, Spec, SpecV,
};
use crate::{Count, Dance, Data, Error, Link, OptOrder};

verus! {

/// Cover item `i`: hide every option in its column, then take `i` out of
/// the item list.
pub fn cover(i: Link, dance: &mut Links)
    requires
        old(dance)@.wf(),
        old(dance)@.net.is_hdr(i as int),
    ensures
        final(dance)@ == old(dance)@.cover(i as int),
        final(dance)@.wf(),
        final(dance)@.net.same_frame(old(dance)@.net),
        final(dance)@.ft == old(dance)@.ft,
{
    let ghost s0 = dance@;
    proof {
        lemma_col_facts(s0.net, i as int);
    }
    let n = dance.hdr.len();
    let mut p = dance.down[i];
    let mut fuel = n;
    while p != i && fuel > 0
        invariant
            s0.wf(),
            s0.net.is_hdr(i as int),
            n == s0.net.n(),
            dance@.wf(),
            dance@.net.same_frame(s0.net),
            dance@.ft == s0.ft,
            dance@.net.is_col(p as int),
            dance@.net.col_of(p as int) == i,
            fuel <= n,
            dance@.cover_walk(i as int, p as int, fuel as nat) == s0.cover_walk(
                i as int,
                s0.net.down[i as int] as int,
                n as nat,
            ),
        decreases fuel,
    {
        let ghost before = dance@;
        let colored = dance.colored;
        hide_walk(p, dance, colored);
        proof {
            lemma_frame_trans(dance@.net, before.net, s0.net);
            lemma_frame_cols(before.net, dance@.net, p as int);
            lemma_col_facts(dance@.net, p as int);
        }
        p = dance.down[p];
        fuel -= 1;
    }
    let ghost mid = dance@;
    proof {
        lemma_item_wf(mid.net, i as int);
        lemma_frame_trans(mid.net.unlink_item(i as int), mid.net, s0.net);
    }
    let l = dance.left[i];
    let r = dance.right[i];
    dance.right.set(l, r);
    dance.left.set(r, l);
    dance.updates = dance.updates.wrapping_add(1);
}

/// Uncover item `i`: put it back into the item list, then unhide the
/// options of its column in the reverse order.
pub fn uncover(i: Link, dance: &mut Links)
    requires
        old(dance)@.wf(),
        old(dance)@.net.is_hdr(i as int),
    ensures
        final(dance)@ == old(dance)@.uncover(i as int),
        final(dance)@.wf(),
        final(dance)@.net.same_frame(old(dance)@.net),
        final(dance)@.ft == old(dance)@.ft,
{
    let ghost s0 = dance@;
    proof {
        lemma_item_wf(s0.net, i as int);
    }
    let l = dance.left[i];
    let r = dance.right[i];
    dance.right.set(l, i);
    dance.left.set(r, i);
    let ghost s1 = dance@;
    proof {
        lemma_col_facts(s1.net, i as int);
    }
    let n = dance.hdr.len();
    let mut p = dance.up[i];
    let mut fuel = n;
    while p != i && fuel > 0
        invariant
            s1.wf(),
            s1.net.same_frame(s0.net),
            s0.net.is_hdr(i as int),
            n == s0.net.n(),
            dance@.wf(),
            dance@.net.same_frame(s0.net),
            dance@.ft == s0.ft,
            dance@.net.is_col(p as int),
            dance@.net.col_of(p as int) == i,
            fuel <= n,
            dance@.uncover_walk(i as int, p as int, fuel as nat) == s1.uncover_walk(
                i as int,
                s1.net.up[i as int] as int,
                n as nat,
            ),
        decreases fuel,
    {
        let ghost before = dance@;
        let colored = dance.colored;
        unhide_walk(p, dance, colored);
        proof {
            lemma_frame_trans(dance@.net, before.net, s0.net);
            lemma_frame_cols(before.net, dance@.net, p as int);
            lemma_col_facts(dance@.net, p as int);
        }
        p = dance.up[p];
        fuel -= 1;
    }
}

/// Commit entry `p` of item `j`: cover `j`.
pub fn commit(p: Link, j: Link, dance: &mut Links)
    requires
        old(dance)@.wf(),
        old(dance)@.net.is_hdr(j as int),
    ensures
        final(dance)@ == old(dance)@.commit_with(p as int, j as int, false),
        final(dance)@.wf(),
        final(dance)@.net.same_frame(old(dance)@.net),
        final(dance)@.ft == old(dance)@.ft,
{
    cover(j, dance);
}

/// Undo `commit(p, j)`: uncover `j`.
pub fn uncommit(p: Link, j: Link, dance: &mut Links)
    requires
        old(dance)@.wf(),
        old(dance)@.net.is_hdr(j as int),
    ensures
        final(dance)@ == old(dance)@.uncommit_with(p as int, j as int, false),
        final(dance)@.wf(),
        final(dance)@.net.same_frame(old(dance)@.net),
        final(dance)@.ft == old(dance)@.ft,
{
    uncover(j, dance);
}

/// Hide the option of entry `p`: every other entry of it leaves its
/// column.
pub fn hide_option(p: Link, dance: &mut Links)
    requires
        old(dance)@.wf(),
        old(dance)@.net.is_opt(p as int),
    ensures
        final(dance)@ == old(dance)@.hide_with(p as int, false),
        final(dance)@.wf(),
        final(dance)@.net.same_frame(old(dance)@.net),
        final(dance)@.ft == old(dance)@.ft,
{
    hide_walk(p, dance, false);
}

/// Undo `hide_option(p)`, in the reverse order.
pub fn unhide(p: Link, dance: &mut Links)
    requires
        old(dance)@.wf(),
        old(dance)@.net.is_opt(p as int),
    ensures
        final(dance)@ == old(dance)@.unhide_with(p as int, false),
        final(dance)@.wf(),
        final(dance)@.net.same_frame(old(dance)@.net),
        final(dance)@.ft == old(dance)@.ft,
{
    unhide_walk(p, dance, false);
}

/// The number of ways to cover item `i`: the length of its column.
pub fn branch_degree(i: Link, dance: &Links) -> (r: Data)
    requires
        dance@.wf(),
        dance@.net.is_hdr(i as int),
    ensures
        r == dance@.net.hdr[i as int],
{
    proof {
        lemma_col_facts(dance@.net, i as int);
    }
    dance.hdr[i]
}

/// Before branching on item `i`: cover it.
pub fn prepare_to_branch(dance: &mut Links, i: Link, l: Count, xl: Link)
    requires
        old(dance)@.wf(),
        old(dance)@.net.is_hdr(i as int),
    ensures
        final(dance)@ == old(dance)@.cover(i as int),
        final(dance)@.wf(),
        final(dance)@.net.same_frame(old(dance)@.net),
        final(dance)@.ft == old(dance)@.ft,
{
    cover(i, dance);
}

/// Commit the items of the option of entry `x`, walking around it.
pub(crate) fn commit_walk(x: Link, dance: &mut Links)
    requires
        old(dance)@.wf(),
        old(dance)@.net.is_opt(x as int),
    ensures
        final(dance)@ == old(dance)@.commit_option(x as int),
        final(dance)@.wf(),
        final(dance)@.net.same_frame(old(dance)@.net),
        final(dance)@.ft == old(dance)@.ft,
{
    let ghost s0 = dance@;
    let ghost n = dance@.net.n();
    proof {
        lemma_col_facts(dance@.net, x as int);
    }
    let mut p = x + 1;
    while p != x
        invariant
            s0.wf(),
            s0.net.is_opt(x as int),
            n == s0.net.n(),
            dance@.wf(),
            dance@.net.same_frame(s0.net),
            dance@.ft == s0.ft,
            dance@.net.len + 2 <= p < n,
            p > x ==> forall|y: int| x <= y < p ==> #[trigger] dance@.net.hdr[y] > 0,
            p < x ==> forall|y: int| p <= y <= x ==> #[trigger] dance@.net.hdr[y] > 0,
            dance@.commit_from(x as int, p as int, n) == s0.commit_option(x as int),
        decreases (if p > x {
            2 * n - p
        } else {
            x - p
        }),
    {
        let j = dance.hdr[p];
        if j <= 0 {
            proof {
                lemma_spacer_facts(dance@.net, p as int);
                let u = dance@.net.up[p as int] as int;
                if u > x {
                    assert(dance@.net.hdr[u - 1] > 0);
                }
            }
            p = dance.up[p];
        } else {
            let ghost before = dance@;
            proof {
                assert(dance@.net.is_opt(p as int));
                lemma_col_facts(dance@.net, p as int);
            }
            let ju = j as usize;
            if dance.colored {
                crate::c::commit(p, ju, dance);
            } else {
                commit(p, ju, dance);
            }
            proof {
                lemma_frame_trans(dance@.net, before.net, s0.net);
                assert forall|y: int| dance@.net.len + 1 <= y < n implies #[trigger] dance@.net.hdr[y]
                    == before.net.hdr[y] by {}
            }
            p += 1;
        }
    }
}

/// Uncommit the items of the option of entry `x`, walking backwards.
pub(crate) fn uncommit_walk(x: Link, dance: &mut Links)
    requires
        old(dance)@.wf(),
        old(dance)@.net.is_opt(x as int),
    ensures
        final(dance)@ == old(dance)@.uncommit_option(x as int),
        final(dance)@.wf(),
        final(dance)@.net.same_frame(old(dance)@.net),
        final(dance)@.ft == old(dance)@.ft,
{
    let ghost s0 = dance@;
    let ghost n = dance@.net.n();
    let mut p = x - 1;
    while p != x
        invariant
            s0.wf(),
            s0.net.is_opt(x as int),
            n == s0.net.n(),
            dance@.wf(),
            dance@.net.same_frame(s0.net),
            dance@.ft == s0.ft,
            dance@.net.len + 1 <= p < n,
            p < x ==> forall|y: int| p < y <= x ==> #[trigger] dance@.net.hdr[y] > 0,
            p > x ==> forall|y: int| x <= y <= p ==> #[trigger] dance@.net.hdr[y] > 0,
            dance@.uncommit_from(x as int, p as int, n) == s0.uncommit_option(x as int),
        decreases (if p < x {
            n + p
        } else {
            p - x
        }),
    {
        let j = dance.hdr[p];
        if j <= 0 {
            proof {
                lemma_spacer_facts(dance@.net, p as int);
                let dd = dance@.net.down[p as int] as int;
                if dd < x {
                    assert(dance@.net.hdr[dd + 1] > 0);
                }
            }
            p = dance.down[p];
        } else {
            let ghost before = dance@;
            proof {
                lemma_end_spacers(dance@.net);
                assert(dance@.net.is_opt(p as int));
                lemma_col_facts(dance@.net, p as int);
            }
            let ju = j as usize;
            if dance.colored {
                crate::c::uncommit(p, ju, dance);
            } else {
                uncommit(p, ju, dance);
            }
            proof {
                lemma_frame_trans(dance@.net, before.net, s0.net);
                assert forall|y: int| dance@.net.len + 1 <= y < n implies #[trigger] dance@.net.hdr[y]
                    == before.net.hdr[y] by {}
            }
            p -= 1;
        }
    }
}

/// Try entry `xl` of the column of item `i`: when `xl` is the header there
/// is nothing left to try; otherwise commit the other items of its option.
pub fn try_item(dance: &mut Links, i: Link, xl: Link) -> (r: bool)
    requires
        old(dance)@.wf(),
        old(dance)@.net.is_hdr(i as int),
        old(dance)@.net.is_col(xl as int),
        old(dance)@.net.col_of(xl as int) == i,
    ensures
        r == (xl != i),
        r ==> final(dance)@ == old(dance)@.commit_option(xl as int),
        !r ==> final(dance)@ == old(dance)@,
        final(dance)@.wf(),
        final(dance)@.net.same_frame(old(dance)@.net),
        final(dance)@.ft == old(dance)@.ft,
{
    if xl == i {
        return false;
    }
    commit_walk(xl, dance);
    true
}

/// Leave entry `xl` for the next one in its column: undo its commits, then
/// try the next entry; when none is left, restore item `i`. On return `xl`
/// is the entry tried.
pub fn try_again(dance: &mut Links, i: Link, l: Count, xl: &mut Link) -> (r: bool)
    requires
        old(dance)@.wf(),
        old(dance)@.net.is_hdr(i as int),
        old(dance)@.net.is_opt(*old(xl) as int),
        old(dance)@.net.col_of(*old(xl) as int) == i,
    ensures
        ({
            let t = old(dance)@.uncommit_option(*old(xl) as int);
            let next = t.net.down[*old(xl) as int];
            &&& *final(xl) == next
            &&& r == (next != i)
            &&& r ==> final(dance)@ == t.commit_option(next as int)
            &&& !r ==> final(dance)@ == t.uncover(i as int)
        }),
        final(dance)@.net.is_col(*final(xl) as int),
        final(dance)@.wf(),
        final(dance)@.net.same_frame(old(dance)@.net),
        final(dance)@.ft == old(dance)@.ft,
{
    let ghost s0 = dance@;
    uncommit_walk(*xl, dance);
    proof {
        lemma_frame_cols(s0.net, dance@.net, *xl as int);
        lemma_col_facts(dance@.net, *xl as int);
    }
    *xl = dance.down[*xl];
    let ghost mid = dance@;
    let again = try_item(dance, i, *xl);
    proof {
        lemma_frame_trans(dance@.net, mid.net, s0.net);
        lemma_frame_cols(mid.net, dance@.net, *xl as int);
    }
    if !again {
        let ghost mid2 = dance@;
        restore_item(dance, i);
        proof {
            lemma_frame_trans(dance@.net, mid2.net, s0.net);
            lemma_frame_cols(mid2.net, dance@.net, *xl as int);
        }
    }
    again
}

/// After the last entry of item `i` was tried: uncover it.
pub fn restore_item(dance: &mut Links, i: Link)
    requires
        old(dance)@.wf(),
        old(dance)@.net.is_hdr(i as int),
    ensures
        final(dance)@ == old(dance)@.uncover(i as int),
        final(dance)@.wf(),
        final(dance)@.net.same_frame(old(dance)@.net),
        final(dance)@.ft == old(dance)@.ft,
{
    uncover(i, dance);
}


/// An item node: its links in the list of items.
#[derive(Copy, Clone, Debug, Default, PartialEq, Eq)]
pub struct INode {
    pub left: Link,
    pub right: Link,
}

/// The item nodes of a problem: node `0` heads the primary items
/// `1..=primary`, node `len + 1` the secondary items `primary+1..=len`.
#[derive(Clone, Debug, Default, PartialEq, Eq)]
pub struct INodes {
    pub nodes: Vec<INode>,
    pub primary: Count,
    pub len: Count,
}

/// The left links of item nodes.
pub open spec fn lefts(s: Seq<INode>) -> Seq<Link> {
    s.map_values(|v: INode| v.left)
}

/// The right links of item nodes.
pub open spec fn rights(s: Seq<INode>) -> Seq<Link> {
    s.map_values(|v: INode| v.right)
}

impl INodes {
    /// `np` primary and `ns` secondary items, each in its list in order.
    pub fn new(np: Count, ns: Count) -> (r: INodes)
        requires
            np + ns < isize::MAX,
        ensures
            r.primary == np,
            r.len == np + ns,
            r.nodes@.len() == np + ns + 2,
            forall|i: int|
                0 <= i < np + ns + 2 ==> #[trigger] r.nodes@[i] == (INode {
                    left: init_left(np as int, np + ns, i) as Link,
                    right: init_right(np as int, np + ns, i) as Link,
                }),
    {
        let n = np + ns;
        let (left, right) = item_links(np, n);
        let mut nodes: Vec<INode> = Vec::new();
        let mut i: usize = 0;
        while i < n + 2
            invariant
                n == np + ns,
                n < isize::MAX,
                left@.len() == n + 2,
                right@.len() == n + 2,
                forall|j: int| 0 <= j < n + 2 ==> #[trigger] left@[j] == init_left(np as int, n as int, j),
                forall|j: int| 0 <= j < n + 2 ==> #[trigger] right@[j] == init_right(np as int, n as int, j),
                i <= n + 2,
                nodes@.len() == i,
                forall|j: int|
                    0 <= j < i ==> #[trigger] nodes@[j] == (INode {
                        left: init_left(np as int, n as int, j) as Link,
                        right: init_right(np as int, n as int, j) as Link,
                    }),
            decreases n + 2 - i,
        {
            nodes.push(INode { left: left[i], right: right[i] });
            i += 1;
        }
        INodes { nodes, primary: np, len: n }
    }
}

/// An option node: the length of a column, the item of an entry or minus
/// the number of the option before a spacer, and the vertical links.
#[derive(Copy, Clone, Debug, Default, PartialEq, Eq)]
pub struct ONode {
    pub hdr_info: Data,
    pub up: Link,
    pub down: Link,
}

/// The option nodes of an exact cover problem.
#[derive(Clone, Debug, Default, PartialEq, Eq)]
pub struct ONodes {
    pub nodes: Vec<ONode>,
}

/// The header fields of option nodes.
pub open spec fn hdrs(s: Seq<ONode>) -> Seq<Data> {
    s.map_values(|v: ONode| v.hdr_info)
}

/// The up links of option nodes.
pub open spec fn ups(s: Seq<ONode>) -> Seq<Link> {
    s.map_values(|v: ONode| v.up)
}

/// The down links of option nodes.
pub open spec fn downs(s: Seq<ONode>) -> Seq<Link> {
    s.map_values(|v: ONode| v.down)
}

/// Options of items, each entry of color `0`.
pub open spec fn plain_seqs(os: Seq<Vec<Count>>) -> Seq<Seq<(Count, Data)>> {
    os.map_values(|v: Vec<Count>| v@.map_values(|c: Count| (c, 0isize)))
}

/// The items of `os`, each with color `0`.
fn uncolored(os: &[Vec<Count>]) -> (r: Vec<Vec<(Count, Data)>>)
    ensures
        opt_seqs(r@) == plain_seqs(os@),
        r@.len() == os@.len(),
        forall|o: int, k: int|
            0 <= o < os@.len() && 0 <= k < os@[o]@.len() ==> #[trigger] r@[o]@[k] == (
            os@[o]@[k],
            0isize,
        ),
        forall|o: int| 0 <= o < os@.len() ==> #[trigger] r@[o]@.len() == os@[o]@.len(),
{
    let mut r: Vec<Vec<(Count, Data)>> = Vec::new();
    let mut o: usize = 0;
    while o < os.len()
        invariant
            o <= os@.len(),
            r@.len() == o,
            forall|j: int| 0 <= j < o ==> #[trigger] r@[j]@ == os@[j]@.map_values(|c: Count| (c, 0isize)),
        decreases os@.len() - o,
    {
        let opt = &os[o];
        let mut v: Vec<(Count, Data)> = Vec::new();
        let mut k: usize = 0;
        while k < opt.len()
            invariant
                opt == os@[o as int],
                k <= opt@.len(),
                v@.len() == k,
                forall|j: int| 0 <= j < k ==> #[trigger] v@[j] == (opt@[j], 0isize),
            decreases opt@.len() - k,
        {
            v.push((opt[k], 0));
            k += 1;
        }
        proof {
            assert(v@ =~= os@[o as int]@.map_values(|c: Count| (c, 0isize)));
        }
        r.push(v);
        o += 1;
    }
    proof {
        assert(opt_seqs(r@) =~= plain_seqs(os@));
    }
    r
}

impl ONodes {
    /// The option nodes of options `os` over `n` items (item `k` of an
    /// option is column `k + 1`), entries joining their columns in `order`.
    pub fn new(n: Count, np: Count, os: &[Vec<Count>], order: OptOrder) -> (r: ONodes)
        requires
            forall|o: int, k: int|
                0 <= o < os@.len() && 0 <= k < os@[o]@.len() ==> #[trigger] os@[o]@[k] < n,
            node_count(n as int, plain_seqs(os@)) < isize::MAX,
            order is Rnd ==> forall|c: int| 0 <= c < n ==> #[trigger] occurrences(plain_seqs(os@), c) < 0x8000_0000,
        ensures
            options_shape(n, plain_seqs(os@), hdrs(r.nodes@), ups(r.nodes@), downs(r.nodes@)),
            column_net(n, hdrs(r.nodes@), ups(r.nodes@), downs(r.nodes@)).layout(),
            column_net(n, hdrs(r.nodes@), ups(r.nodes@), downs(r.nodes@)).closed(),
            exists|cols: Seq<Seq<int>>|
                #[trigger] cycles(
                    column_net(n, hdrs(r.nodes@), ups(r.nodes@), downs(r.nodes@)),
                    n as int,
                    cols,
                ),
            order is Sequential ==> forall|c: int|
                1 <= c <= n ==> column(
                    column_net(n, hdrs(r.nodes@), ups(r.nodes@), downs(r.nodes@)),
                    c,
                    #[trigger] col_entries(n as int, plain_seqs(os@), c, os@.len() as int, 0),
                ),
    {
        let ghost seq_order = order is Sequential;
        let pairs = uncolored(os);
        proof {
            assert forall|o: int, k: int|
                0 <= o < pairs@.len() && 0 <= k < pairs@[o]@.len() implies #[trigger] pairs@[o]@[k].0
                < n by {
                assert(pairs@[o]@[k] == (os@[o]@[k], 0isize));
            }
        }
        let a = build_options(n, &pairs, order);
        let mut nodes: Vec<ONode> = Vec::new();
        let mut i: usize = 0;
        while i < a.hdr.len()
            invariant
                a.up@.len() == a.hdr@.len(),
                a.down@.len() == a.hdr@.len(),
                i <= a.hdr@.len(),
                nodes@.len() == i,
                forall|j: int|
                    0 <= j < i ==> #[trigger] nodes@[j] == (ONode {
                        hdr_info: a.hdr@[j],
                        up: a.up@[j],
                        down: a.down@[j],
                    }),
            decreases a.hdr@.len() - i,
        {
            nodes.push(ONode { hdr_info: a.hdr[i], up: a.up[i], down: a.down[i] });
            i += 1;
        }
        proof {
            assert(hdrs(nodes@) =~= a.hdr@);
            assert(ups(nodes@) =~= a.up@);
            assert(downs(nodes@) =~= a.down@);
            lemma_same_options(a.net(n), column_net(n, a.hdr@, a.up@, a.down@));
            let cols = choose|cols: Seq<Seq<int>>| columns_ok(a, n, cols);
            assert forall|c: int| 1 <= c <= n implies column(
                column_net(n, a.hdr@, a.up@, a.down@),
                c,
                #[trigger] cols[c],
            ) by {
                assert(column(a.net(n), c, cols[c]));
                lemma_column_same(a.net(n), column_net(n, a.hdr@, a.up@, a.down@), c, cols[c]);
            }
            assert forall|x: int, c: int|
                1 <= c <= n && #[trigger] column_net(n, a.hdr@, a.up@, a.down@).is_opt(x) && column_net(
                    n,
                    a.hdr@,
                    a.up@,
                    a.down@,
                ).hdr[x] == c implies #[trigger] cols[c].contains(x) by {
                assert(a.net(n).is_opt(x));
            }
            assert(cycles(column_net(n, a.hdr@, a.up@, a.down@), n as int, cols));
            if seq_order {
                assert forall|c: int| 1 <= c <= n implies column(
                    column_net(n, a.hdr@, a.up@, a.down@),
                    c,
                    #[trigger] col_entries(n as int, plain_seqs(os@), c, os@.len() as int, 0),
                ) by {
                    lemma_column_same(a.net(n), column_net(n, a.hdr@, a.up@, a.down@), c, col_entries(n as int, plain_seqs(os@), c, os@.len() as int, 0));
                }
            }
        }
        ONodes { nodes }
    }
}

/// The nodes of an exact cover problem from its item nodes and option
/// nodes, before any update.
pub open spec fn x_links(items: INodes, opts: ONodes) -> LinksV {
    LinksV {
        net: Net {
            left: lefts(items.nodes@),
            right: rights(items.nodes@),
            slack: Seq::new(items.nodes@.len(), |i: int| 0isize),
            bound: Seq::new(items.nodes@.len(), |i: int| 0isize),
            hdr: hdrs(opts.nodes@),
            up: ups(opts.nodes@),
            down: downs(opts.nodes@),
            color: Seq::new(opts.nodes@.len(), |i: int| 0isize),
            primary: items.primary,
            len: items.len,
            colored: false,
            multi: false,
        },
        ft: Seq::empty(),
        updates: 0,
    }
}

/// An exact cover problem.
pub struct Problem {
    core: Links,
}

/// The left and right links of item nodes, in two vectors.
pub fn item_vecs(items: &INodes) -> (r: (Vec<Link>, Vec<Link>))
    ensures
        r.0@ == lefts(items.nodes@),
        r.1@ == rights(items.nodes@),
{
    let mut left: Vec<Link> = Vec::new();
    let mut right: Vec<Link> = Vec::new();
    let mut i: usize = 0;
    while i < items.nodes.len()
        invariant
            i <= items.nodes@.len(),
            left@ == lefts(items.nodes@).take(i as int),
            right@ == rights(items.nodes@).take(i as int),
        decreases items.nodes@.len() - i,
    {
        proof {
            assert(lefts(items.nodes@).take(i + 1) =~= lefts(items.nodes@).take(i as int).push(items.nodes@[i as int].left));
            assert(rights(items.nodes@).take(i + 1) =~= rights(items.nodes@).take(i as int).push(items.nodes@[i as int].right));
        }
        left.push(items.nodes[i].left);
        right.push(items.nodes[i].right);
        i += 1;
    }
    proof {
        assert(lefts(items.nodes@).take(i as int) =~= lefts(items.nodes@));
        assert(rights(items.nodes@).take(i as int) =~= rights(items.nodes@));
    }
    (left, right)
}

/// The header fields and links of option nodes, in three vectors.
pub fn option_vecs(opts: &ONodes) -> (r: (Vec<Data>, Vec<Link>, Vec<Link>))
    ensures
        r.0@ == hdrs(opts.nodes@),
        r.1@ == ups(opts.nodes@),
        r.2@ == downs(opts.nodes@),
{
    let mut hdr: Vec<Data> = Vec::new();
    let mut up: Vec<Link> = Vec::new();
    let mut down: Vec<Link> = Vec::new();
    let mut i: usize = 0;
    while i < opts.nodes.len()
        invariant
            i <= opts.nodes@.len(),
            hdr@ == hdrs(opts.nodes@).take(i as int),
            up@ == ups(opts.nodes@).take(i as int),
            down@ == downs(opts.nodes@).take(i as int),
        decreases opts.nodes@.len() - i,
    {
        proof {
            assert(hdrs(opts.nodes@).take(i + 1) =~= hdrs(opts.nodes@).take(i as int).push(opts.nodes@[i as int].hdr_info));
            assert(ups(opts.nodes@).take(i + 1) =~= ups(opts.nodes@).take(i as int).push(opts.nodes@[i as int].up));
            assert(downs(opts.nodes@).take(i + 1) =~= downs(opts.nodes@).take(i as int).push(opts.nodes@[i as int].down));
        }
        hdr.push(opts.nodes[i].hdr_info);
        up.push(opts.nodes[i].up);
        down.push(opts.nodes[i].down);
        i += 1;
    }
    proof {
        assert(hdrs(opts.nodes@).take(i as int) =~= hdrs(opts.nodes@));
        assert(ups(opts.nodes@).take(i as int) =~= ups(opts.nodes@));
        assert(downs(opts.nodes@).take(i as int) =~= downs(opts.nodes@));
    }
    (hdr, up, down)
}

/// The item nodes of a problem's nodes.
pub fn items_of(core: &Links) -> (r: INodes)
    requires
        core.left@.len() == core.right@.len(),
    ensures
        lefts(r.nodes@) == core@.net.left,
        rights(r.nodes@) == core@.net.right,
        r.primary == core.primary,
        r.len == core.len,
{
    let mut nodes: Vec<INode> = Vec::new();
    let mut i: usize = 0;
    while i < core.left.len()
        invariant
            core.left@.len() == core.right@.len(),
            i <= core.left@.len(),
            nodes@.len() == i,
            forall|j: int| 0 <= j < i ==> #[trigger] nodes@[j] == (INode { left: core.left@[j], right: core.right@[j] }),
        decreases core.left@.len() - i,
    {
        nodes.push(INode { left: core.left[i], right: core.right[i] });
        i += 1;
    }
    proof {
        assert(lefts(nodes@) =~= core.left@);
        assert(rights(nodes@) =~= core.right@);
    }
    INodes { nodes, primary: core.primary, len: core.len }
}

/// The option nodes of a problem's nodes, without colors.
pub fn opts_of(core: &Links) -> (r: ONodes)
    requires
        core.up@.len() == core.hdr@.len(),
        core.down@.len() == core.hdr@.len(),
    ensures
        hdrs(r.nodes@) == core@.net.hdr,
        ups(r.nodes@) == core@.net.up,
        downs(r.nodes@) == core@.net.down,
{
    let mut nodes: Vec<ONode> = Vec::new();
    let mut i: usize = 0;
    while i < core.hdr.len()
        invariant
            core.up@.len() == core.hdr@.len(),
            core.down@.len() == core.hdr@.len(),
            i <= core.hdr@.len(),
            nodes@.len() == i,
            forall|j: int|
                0 <= j < i ==> #[trigger] nodes@[j] == (ONode {
                    hdr_info: core.hdr@[j],
                    up: core.up@[j],
                    down: core.down@[j],
                }),
        decreases core.hdr@.len() - i,
    {
        nodes.push(ONode { hdr_info: core.hdr[i], up: core.up[i], down: core.down[i] });
        i += 1;
    }
    proof {
        assert(hdrs(nodes@) =~= core.hdr@);
        assert(ups(nodes@) =~= core.up@);
        assert(downs(nodes@) =~= core.down@);
    }
    ONodes { nodes }
}

impl Problem {
    /// The problem with item nodes `items` and option nodes `opts`.
    pub fn new(items: INodes, opts: ONodes) -> (r: Problem)
        ensures
            r.dance_view() == x_links(items, opts),
    {
        let (left, right) = item_vecs(&items);
        let (hdr, up, down) = option_vecs(&opts);
        let slack = zeros(items.nodes.len());
        let bound = zeros(items.nodes.len());
        let color = zeros(opts.nodes.len());
        let core = assemble(left, right, slack, bound, OptArrays { hdr, up, down, color }, items.primary, items.len, false, false);
        proof {
            assert(core@.net.slack =~= Seq::new(items.nodes@.len(), |i: int| 0isize));
            assert(core@.net.bound =~= Seq::new(items.nodes@.len(), |i: int| 0isize));
            assert(core@.net.color =~= Seq::new(opts.nodes@.len(), |i: int| 0isize));
        }
        Problem { core }
    }

    /// The item nodes as they are now.
    pub fn items(&self) -> (r: INodes)
        requires
            self.dance_view().net.left.len() == self.dance_view().net.right.len(),
        ensures
            lefts(r.nodes@) == self.dance_view().net.left,
            rights(r.nodes@) == self.dance_view().net.right,
            r.primary == self.dance_view().net.primary,
            r.len == self.dance_view().net.len,
    {
        items_of(&self.core)
    }

    /// The option nodes as they are now.
    pub fn opts(&self) -> (r: ONodes)
        requires
            self.dance_view().net.up.len() == self.dance_view().net.hdr.len(),
            self.dance_view().net.down.len() == self.dance_view().net.hdr.len(),
        ensures
            hdrs(r.nodes@) == self.dance_view().net.hdr,
            ups(r.nodes@) == self.dance_view().net.up,
            downs(r.nodes@) == self.dance_view().net.down,
    {
        opts_of(&self.core)
    }
}

/// The problem of `np` primary and `ns` secondary items and options `os`.
pub fn make_problem(np: Count, ns: Count, os: &[Vec<Count>], order: OptOrder) -> (r: Problem)
    requires
        np + ns < isize::MAX,
        forall|o: int, k: int|
            0 <= o < os@.len() && 0 <= k < os@[o]@.len() ==> #[trigger] os@[o]@[k] < np + ns,
        node_count((np + ns) as int, plain_seqs(os@)) < isize::MAX,
        order is Rnd ==> forall|c: int| 0 <= c < np + ns ==> #[trigger] occurrences(plain_seqs(os@), c) < 0x8000_0000,
    ensures
        r.dance_view().net.primary == np,
        r.dance_view().net.len == np + ns,
        !r.dance_view().net.colored,
        !r.dance_view().net.multi,
        r.dance_view().ft == Seq::<Link>::empty(),
        r.dance_view().updates == 0,
        r.dance_view().net.left.len() == np + ns + 2,
        r.dance_view().net.right.len() == np + ns + 2,
        forall|i: int|
            0 <= i < np + ns + 2 ==> #[trigger] r.dance_view().net.left[i] == init_left(
                np as int,
                np + ns,
                i,
            ) && r.dance_view().net.right[i] == init_right(np as int, np + ns, i),
        r.dance_view().net.slack == Seq::new((np + ns + 2) as nat, |i: int| 0isize),
        r.dance_view().net.bound == Seq::new((np + ns + 2) as nat, |i: int| 0isize),
        options_shape(
            (np + ns) as Count,
            plain_seqs(os@),
            r.dance_view().net.hdr,
            r.dance_view().net.up,
            r.dance_view().net.down,
        ),
        r.dance_view().net.color == Seq::new(r.dance_view().net.hdr.len(), |i: int| 0isize),
        order is Sequential ==> forall|c: int|
            1 <= c <= np + ns ==> column(
                r.dance_view().net,
                c,
                #[trigger] col_entries((np + ns) as int, plain_seqs(os@), c, os@.len() as int, 0),
            ),
        r.dance_view().wf(),
        no_repeats(plain_seqs(os@)) ==> tracked_start(
            r.dance_view(),
        ),
{
    let ghost seq_order = order is Sequential;
    let items = INodes::new(np, ns);
    let opts = ONodes::new(np + ns, np, os, order);
    let ghost gi = items;
    let ghost go = opts;
    let r = Problem::new(items, opts);
    proof {
        assert(r.dance_view() == x_links(gi, go));
        assert forall|i: int| 0 <= i < np + ns + 2 implies #[trigger] r.dance_view().net.left[i]
            == init_left(np as int, np + ns, i) && r.dance_view().net.right[i] == init_right(
            np as int,
            np + ns,
            i,
        ) by {
            assert(gi.nodes@[i].left == init_left(np as int, np + ns, i));
        }
        if seq_order {
            assert forall|c: int| 1 <= c <= np + ns implies column(
                r.dance_view().net,
                c,
                #[trigger] col_entries((np + ns) as int, plain_seqs(os@), c, os@.len() as int, 0),
            ) by {
                let l = col_entries((np + ns) as int, plain_seqs(os@), c, os@.len() as int, 0);
                assert(column(column_net((np + ns) as Count, hdrs(go.nodes@), ups(go.nodes@), downs(go.nodes@)), c, l));
                lemma_column_same(
                    column_net((np + ns) as Count, hdrs(go.nodes@), ups(go.nodes@), downs(go.nodes@)),
                    r.dance_view().net,
                    c,
                    l,
                );
            }
        }
        let net = column_net((np + ns) as Count, hdrs(go.nodes@), ups(go.nodes@), downs(go.nodes@));
        lemma_same_options(net, r.dance_view().net);
        assert forall|i: int| 0 <= i < r.dance_view().net.ni() implies #[trigger] r.dance_view().net.left[i]
            < r.dance_view().net.ni() && r.dance_view().net.right[i] < r.dance_view().net.ni() by {
            assert(r.dance_view().net.left[i] == init_left(np as int, np + ns, i));
            assert(r.dance_view().net.right[i] == init_right(np as int, np + ns, i));
        }
        lemma_node_count_ge((np + ns) as int, plain_seqs(os@));
        assert(r.dance_view().net.sized());
        if no_repeats(plain_seqs(os@)) {
            let cols = choose|cols: Seq<Seq<int>>| #[trigger] cycles(net, (np + ns) as int, cols);
            law_x_tracked(gi, go, np, (np + ns) as Count, plain_seqs(os@), cols);
        }
    }
    r
}

/// The names of all items: the primary items, then the secondary ones.
pub open spec fn item_names(sp: SpecV) -> Seq<Seq<char>> {
    sp.primary + sp.secondary
}

/// The names of all items of `spec`, primary first.
pub fn all_names(spec: &Spec) -> (r: Vec<String>)
    ensures
        string_views(r@) == item_names(spec@),
{
    let mut r: Vec<String> = Vec::new();
    let mut k: usize = 0;
    while k < spec.primary.len()
        invariant
            k <= spec.primary@.len(),
            string_views(r@) == string_views(spec.primary@).take(k as int),
        decreases spec.primary@.len() - k,
    {
        let ghost old_r = r@;
        r.push(spec.primary[k].clone());
        proof {
            assert(string_views(r@) =~= string_views(old_r).push(spec.primary@[k as int]@));
            assert(string_views(spec.primary@).take(k + 1) =~= string_views(spec.primary@).take(
                k as int,
            ).push(spec.primary@[k as int]@));
        }
        k += 1;
    }
    let mut j: usize = 0;
    while j < spec.secondary.len()
        invariant
            j <= spec.secondary@.len(),
            string_views(r@) == string_views(spec.primary@) + string_views(spec.secondary@).take(
                j as int,
            ),
        decreases spec.secondary@.len() - j,
    {
        let ghost old_r = r@;
        r.push(spec.secondary[j].clone());
        proof {
            assert(string_views(r@) =~= string_views(old_r).push(spec.secondary@[j as int]@));
            assert(string_views(spec.secondary@).take(j + 1) =~= string_views(
                spec.secondary@,
            ).take(j as int).push(spec.secondary@[j as int]@));
        }
        j += 1;
    }
    proof {
        assert(string_views(spec.primary@).take(k as int) =~= string_views(spec.primary@));
        assert(string_views(spec.secondary@).take(j as int) =~= string_views(spec.secondary@));
    }
    r
}

/// The nodes of a problem over `np` primary items out of `n`, with
/// options `os`, as they are built, before any update: the items in their
/// lists, the options in their columns.
pub open spec fn fresh(v: LinksV, np: int, n: int, os: Seq<Seq<(Count, Data)>>) -> bool {
    &&& v.net.primary == np
    &&& v.net.len == n
    &&& v.ft == Seq::<Link>::empty()
    &&& v.updates == 0
    &&& v.net.left.len() == n + 2
    &&& v.net.right.len() == n + 2
    &&& forall|i: int|
        0 <= i < n + 2 ==> #[trigger] v.net.left[i] == init_left(np, n, i) && v.net.right[i]
            == init_right(np, n, i)
    &&& options_shape(n as Count, os, v.net.hdr, v.net.up, v.net.down)
}

impl INodes {
    /// The item nodes of the items of `spec`, and the items' names: fails
    /// with `DuplicateItemNames` when a name occurs twice, else with
    /// `InvalidItemName` when a name holds other than letters, digits and
    /// `#`.
    pub fn from_spec(spec: &Spec) -> (r: Result<(INodes, Vec<String>), Error>)
        requires
            spec.primary@.len() + spec.secondary@.len() < isize::MAX,
        ensures
            match r {
                Ok((items, names)) => {
                    let np = spec.primary@.len();
                    let n = np + spec.secondary@.len();
                    &&& check_names(item_names(spec@)) == Ok::<(), Error>(())
                    &&& string_views(names@) == item_names(spec@)
                    &&& items.primary == np
                    &&& items.len == n
                    &&& items.nodes@.len() == n + 2
                    &&& forall|i: int|
                        0 <= i < n + 2 ==> #[trigger] items.nodes@[i] == (INode {
                            left: init_left(np as int, n as int, i) as Link,
                            right: init_right(np as int, n as int, i) as Link,
                        })
                },
                Err(e) => check_names(item_names(spec@)) == Err::<(), Error>(e),
            },
    {
        let np = spec.primary.len();
        let ns = spec.secondary.len();
        let names = all_names(spec);
        match names_ok(&names) {
            Err(e) => Err(e),
            Ok(()) => Ok((INodes::new(np, ns), names)),
        }
    }
}

impl ONodes {
    /// The option nodes of the options of `spec`, whose words name items
    /// of `names` (by the last item of a name): fails with `InvalidItem`
    /// for a word that names no item, `DuplicateItemsInOption` for a word
    /// met before in its option, and `TooLarge` when the nodes would be
    /// `isize::MAX` or more. The nodes are those [`ONodes::new`] builds.
    /// In random order no item may have `2^31` entries or more: the draws
    /// of the generator would never end.
    pub fn from_spec(spec: &Spec, names: &Vec<String>, order: OptOrder) -> (r: Result<ONodes, Error>)
        requires
            names@.len() == spec.primary@.len() + spec.secondary@.len(),
            order is Rnd ==> (resolve_options(string_views(names@), spec@.opts) matches Ok(is) ==> forall|c: int|
                0 <= c < names@.len() ==> #[trigger] occurrences(zero_colored(is), c) < 0x8000_0000),
        ensures
            ({
                let n = (spec.primary@.len() + spec.secondary@.len()) as Count;
                let res = resolve_options(string_views(names@), spec@.opts);
                match r {
                    Ok(o) => res matches Ok(is) && node_count(n as int, zero_colored(is))
                        < isize::MAX && options_shape(
                        n,
                        zero_colored(is),
                        hdrs(o.nodes@),
                        ups(o.nodes@),
                        downs(o.nodes@),
                    ) && column_net(n, hdrs(o.nodes@), ups(o.nodes@), downs(o.nodes@)).layout()
                        && column_net(n, hdrs(o.nodes@), ups(o.nodes@), downs(o.nodes@)).closed()
                        && (exists|cols: Seq<Seq<int>>|
                        #[trigger] cycles(
                            column_net(n, hdrs(o.nodes@), ups(o.nodes@), downs(o.nodes@)),
                            n as int,
                            cols,
                        )) && (order is Sequential ==> forall|c: int|
                        1 <= c <= n ==> column(
                            column_net(n, hdrs(o.nodes@), ups(o.nodes@), downs(o.nodes@)),
                            c,
                            #[trigger] col_entries(n as int, zero_colored(is), c, is.len() as int, 0),
                        )),
                    Err(e) => res == Err::<Seq<Seq<Count>>, Error>(e) || (res matches Ok(is)
                        && node_count(n as int, zero_colored(is)) >= isize::MAX && e
                        == Error::TooLarge),
                }
            }),
    {
        let n = names.len();
        let np = spec.primary.len();
        let ghost ns = string_views(names@);
        match resolve_all(names, &spec.opts) {
            Err(e) => Err(e),
            Ok(os) => {
                let ghost is = index_views(os@);
                proof {
                    lemma_resolve_options_bound(ns, spec@.opts);
                    assert(plain_seqs(os@) =~~= zero_colored(is));
                    assert forall|k: int| 0 <= k < seqs_of(os@).len() implies #[trigger] seqs_of(
                        os@,
                    )[k].len() == zero_colored(is)[k].len() by {}
                    lemma_node_count_lens(n as int, seqs_of(os@), zero_colored(is));
                }
                if !fits(n, &os) {
                    return Err(Error::TooLarge);
                }
                proof {
                    assert forall|o: int, k: int|
                        0 <= o < os@.len() && 0 <= k < os@[o]@.len() implies #[trigger] os@[o]@[k]
                        < n by {
                        assert(is[o][k] == os@[o]@[k]);
                    }
                }
                Ok(ONodes::new(n, np, &os, order))
            },
        }
    }
}

impl Problem {
    /// The problem of `spec`: the errors of [`INodes::from_spec`], then
    /// those of [`ONodes::from_spec`].
    pub fn from_spec(spec: &Spec, order: OptOrder) -> (r: Result<Problem, Error>)
        requires
            spec.primary@.len() + spec.secondary@.len() < isize::MAX,
            order is Rnd ==> (resolve_options(item_names(spec@), spec@.opts) matches Ok(is) ==> forall|c: int|
                0 <= c < spec.primary@.len() + spec.secondary@.len() ==> #[trigger] occurrences(
                    zero_colored(is),
                    c,
                ) < 0x8000_0000),
        ensures
            ({
                let np = spec.primary@.len();
                let n = np + spec.secondary@.len();
                let names = item_names(spec@);
                let res = resolve_options(names, spec@.opts);
                match r {
                    Ok(p) => {
                        &&& check_names(names) == Ok::<(), Error>(())
                        &&& res matches Ok(is)
                        &&& node_count(n as int, zero_colored(is)) < isize::MAX
                        &&& fresh(p.dance_view(), np as int, n as int, zero_colored(is))
                        &&& !p.dance_view().net.colored
                        &&& !p.dance_view().net.multi
                        &&& order is Sequential ==> forall|c: int|
                            1 <= c <= n ==> column(
                                p.dance_view().net,
                                c,
                                #[trigger] col_entries(n as int, zero_colored(is), c, is.len() as int, 0),
                            )
                        &&& p.dance_view().wf()
                        &&& tracked_start(p.dance_view())
                    },
                    Err(e) => check_names(names) == Err::<(), Error>(e) || (check_names(names)
                        == Ok::<(), Error>(()) && (res == Err::<Seq<Seq<Count>>, Error>(e) || (
                    res matches Ok(is) && node_count(n as int, zero_colored(is)) >= isize::MAX
                        && e == Error::TooLarge))),
                }
            }),
    {
        let ghost seq_order = order is Sequential;
        let (items, names) = INodes::from_spec(spec)?;
        let opts = ONodes::from_spec(spec, &names, order)?;
        let ghost gi = items;
        let ghost go = opts;
        let p = Problem::new(items, opts);
        proof {
            let np = spec.primary@.len();
            let n = np + spec.secondary@.len();
            assert forall|i: int| 0 <= i < n + 2 implies #[trigger] p.dance_view().net.left[i]
                == init_left(np as int, n as int, i) && p.dance_view().net.right[i] == init_right(
                np as int,
                n as int,
                i,
            ) by {
                assert(gi.nodes@[i].left == init_left(np as int, n as int, i));
            }
            let res = resolve_options(item_names(spec@), spec@.opts);
            let is = res->Ok_0;
            let ss = zero_colored(is);
            if seq_order {
                assert forall|c: int| 1 <= c <= n implies column(
                    p.dance_view().net,
                    c,
                    #[trigger] col_entries(n as int, ss, c, is.len() as int, 0),
                ) by {
                    let l = col_entries(n as int, ss, c, is.len() as int, 0);
                    assert(column(column_net(n as Count, hdrs(go.nodes@), ups(go.nodes@), downs(go.nodes@)), c, l));
                    lemma_column_same(
                        column_net(n as Count, hdrs(go.nodes@), ups(go.nodes@), downs(go.nodes@)),
                        p.dance_view().net,
                        c,
                        l,
                    );
                }
            }
            {
                let net = column_net(n as Count, hdrs(go.nodes@), ups(go.nodes@), downs(go.nodes@));
                lemma_same_options(net, p.dance_view().net);
                assert forall|i: int| 0 <= i < p.dance_view().net.ni() implies #[trigger] p.dance_view().net.left[i]
                    < p.dance_view().net.ni() && p.dance_view().net.right[i] < p.dance_view().net.ni() by {
                    assert(p.dance_view().net.left[i] == init_left(np as int, n as int, i));
                    assert(p.dance_view().net.right[i] == init_right(np as int, n as int, i));
                }
                lemma_node_count_ge(n as int, ss);
                assert(p.dance_view().net.sized());
                lemma_resolve_options_distinct(item_names(spec@), spec@.opts);
                assert forall|o: int, k1: int, k2: int|
                    0 <= o < ss.len() && 0 <= k1 < k2 < ss[o].len() implies #[trigger] ss[o][k1].0 != #[trigger] ss[o][k2].0 by {
                    assert(ss[o][k1].0 == is[o][k1] && ss[o][k2].0 == is[o][k2]);
                }
                let net = column_net(n as Count, hdrs(go.nodes@), ups(go.nodes@), downs(go.nodes@));
                let cols = choose|cols: Seq<Seq<int>>| #[trigger] cycles(net, n as int, cols);
                law_x_tracked(gi, go, np as Count, n as Count, ss, cols);
            }
        }
        Ok(p)
    }
}

impl crate::Dance for Problem {
    closed spec fn dance_view(&self) -> LinksV {
        self.core@
    }

    fn links(&self) -> (r: &Links) {
        &self.core
    }

    fn updates(&self) -> (r: isize) {
        self.core.updates
    }

    fn set_updates(&mut self, v: isize) {
        self.core.updates = v;
    }

    fn cover(&mut self, i: Link) {
        self.core.cover_item(i);
    }

    fn commit(&mut self, p: Link, j: Link) {
        self.core.commit_entry(p, j);
    }

    fn uncover(&mut self, i: Link) {
        self.core.uncover_item(i);
    }

    fn uncommit(&mut self, p: Link, j: Link) {
        self.core.uncommit_entry(p, j);
    }

    fn hide_option(&mut self, p: Link) {
        self.core.hide_entry(p);
    }

    fn unhide(&mut self, p: Link) {
        self.core.unhide_entry(p);
    }

    fn branch_degree(&self, i: Link) -> (r: Data) {
        self.core.degree(i)
    }
}

impl crate::Solve for Problem {
    fn enter_level(&mut self, i: Link, l: Count, xl: Link) {
        self.core.enter(i, l, xl);
    }

    fn prepare_to_branch(&mut self, i: Link, l: Count, xl: Link) {
        self.core.prepare(i, l, xl);
    }

    fn try_item(&mut self, i: Link, l: Count, xl: Link) -> (r: bool) {
        self.core.try_entry(i, l, xl)
    }

    fn try_again(&mut self, i: Link, l: Count, xl: &mut Link) -> (r: bool) {
        self.core.retry(i, l, xl)
    }

    fn restore_item(&mut self, i: Link, l: Count, xl: Link) {
        self.core.restore(i, l, xl);
    }
}


impl crate::Items for INodes {
    closed spec fn lefts_of(&self) -> Seq<Link> {
        lefts(self.nodes@)
    }

    closed spec fn rights_of(&self) -> Seq<Link> {
        rights(self.nodes@)
    }

    closed spec fn primary_of(&self) -> Count {
        self.primary
    }

    closed spec fn len_of(&self) -> Count {
        self.len
    }

    fn llink(&self, i: Link) -> (r: Link) {
        self.nodes[i].left
    }

    fn rlink(&self, i: Link) -> (r: Link) {
        self.nodes[i].right
    }

    fn primary(&self) -> (r: Count) {
        self.primary
    }

    fn len(&self) -> (r: Count) {
        self.len
    }
}

impl crate::Opts for ONodes {
    closed spec fn hdrs_of(&self) -> Seq<Data> {
        hdrs(self.nodes@)
    }

    closed spec fn ups_of(&self) -> Seq<Link> {
        ups(self.nodes@)
    }

    closed spec fn downs_of(&self) -> Seq<Link> {
        downs(self.nodes@)
    }

    fn len(&self, i: Link) -> (r: Data) {
        self.nodes[i].hdr_info
    }

    fn top(&self, i: Link) -> (r: Data) {
        self.nodes[i].hdr_info
    }

    fn ulink(&self, i: Link) -> (r: Link) {
        self.nodes[i].up
    }

    fn dlink(&self, i: Link) -> (r: Link) {
        self.nodes[i].down
    }
}

} // verus!
