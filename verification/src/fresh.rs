//! Problems as they are built: every column lists the entries of its item
//! in the order of the options, so, when no option names an item twice,
//! they are consistent: covering items and uncovering them gives back the
//! same nodes, and a search of them undoes itself.

use vstd::prelude::*;

use crate::construct::{
    base, col_entries, column_net, cycles, entry_at, lemma_column_same, init_left, init_right, lemma_base_step, lemma_node_count_ge,
    lemma_option_bounds, node_count, opt_seqs, options_colors, options_shape, spacer_after,
};
use crate::x::{downs, hdrs, plain_seqs, ups, x_links, INode, INodes, ONodes};
use crate::covering::{column, law_uncover_cover, options_ok};
use crate::hiding::same_option;
use crate::levels::{consistent, cover_all, law_uncover_all_cover_all, live, uncover_all, whole};
use crate::links::{item_linked, linked, LinksV, Net};
use crate::lists::{colors_secondary, lists_ok};
use crate::solver::{start_witness, tracked_start};
use crate::{Count, Data};

verus! {

/// No option names an item twice.
pub open spec fn no_repeats(ss: Seq<Seq<(Count, Data)>>) -> bool {
    forall|o: int, k1: int, k2: int|
        #![trigger ss[o][k1], ss[o][k2]]
        0 <= o < ss.len() && 0 <= k1 < k2 < ss[o].len() ==> ss[o][k1].0 != ss[o][k2].0
}

/// Every node after the first spacer lies in the block of some option:
/// after the spacer before it, at most at the spacer after it.
proof fn lemma_in_option(n: int, ss: Seq<Seq<(Count, Data)>>, x: int) -> (o: int)
    requires
        n + 1 < x < node_count(n, ss),
    ensures
        0 <= o < ss.len(),
        base(n, ss, o) < x <= spacer_after(n, ss, o),
    decreases ss.len(),
{
    let dl = ss.drop_last();
    let last = ss.len() - 1;
    if ss.len() == 0 {
        assert(node_count(n, ss) == n + 2);
        0
    } else if x < node_count(n, dl) {
        let o = lemma_in_option(n, dl, x);
        assert(ss.take(o) =~= dl.take(o));
        assert(ss[o] == dl[o]);
        o
    } else {
        assert(ss.take(last) =~= dl);
        last
    }
}

/// An entry of item `c - 1` before position `(big_o, big_k)` is in the
/// column list of `c` up to there.
proof fn lemma_in_col(n: int, ss: Seq<Seq<(Count, Data)>>, c: int, o: int, k: int, big_o: int, big_k: int)
    requires
        0 <= o <= big_o <= ss.len(),
        o < big_o ==> 0 <= k < ss[o].len(),
        o == big_o ==> 0 <= k < big_k && big_o < ss.len() && big_k <= ss[big_o].len(),
        ss[o][k].0 + 1 == c,
    ensures
        col_entries(n, ss, c, big_o, big_k).contains(entry_at(n, ss, o, k)),
    decreases big_o, big_k,
{
    if big_k > 0 && 0 <= big_o < ss.len() && big_k <= ss[big_o].len() {
        let prev = col_entries(n, ss, c, big_o, big_k - 1);
        if o == big_o && k == big_k - 1 {
            let t = prev + seq![entry_at(n, ss, o, k)];
            assert(t[prev.len() as int] == entry_at(n, ss, o, k));
        } else {
            lemma_in_col(n, ss, c, o, k, big_o, big_k - 1);
            let j = choose|j: int| 0 <= j < prev.len() && prev[j] == entry_at(n, ss, o, k);
            let t = col_entries(n, ss, c, big_o, big_k);
            assert(t[j] == prev[j]);
        }
    } else {
        lemma_in_col(n, ss, c, o, k, big_o - 1, ss[big_o - 1].len() as int);
    }
}

/// A member of a column's cycle is linked in it.
pub proof fn lemma_column_linked(s: Net, c: int, l: Seq<int>, m: int)
    requires
        column(s, c, l),
        0 <= m < l.len(),
    ensures
        linked(s, l[m]),
{
    if m > 0 {
        assert(s.down[l[m - 1]] == l[m]);
    }
    if m + 1 < l.len() {
        assert(s.up[l[m + 1]] == l[m]);
    }
}

/// The spacer before option `o` is a spacer.
proof fn lemma_base_spacer(n: Count, ss: Seq<Seq<(Count, Data)>>, hdr: Seq<Data>, up: Seq<usize>, down: Seq<usize>, o: int)
    requires
        options_shape(n, ss, hdr, up, down),
        0 <= o < ss.len(),
    ensures
        hdr[base(n as int, ss, o)] <= 0,
{
    if o == 0 {
        assert(ss.take(0) =~= Seq::<Seq<(Count, Data)>>::empty());
    } else {
        lemma_base_step(n as int, ss, o - 1);
        assert(hdr[spacer_after(n as int, ss, o - 1)] == -o);
    }
}

/// Covering any item of a problem as built and then uncovering it gives
/// back the same links and column lengths: item nodes in their two cycles,
/// every column listing the entries of its item in the order of the
/// options, and no option naming an item twice.
pub proof fn law_fresh_uncover_cover(s: LinksV, ss: Seq<Seq<(Count, Data)>>, i: int)
    requires
        s.wf(),
        forall|k: int|
            0 <= k < s.net.ni() ==> #[trigger] s.net.left[k] == init_left(
                s.net.primary as int,
                s.net.len as int,
                k,
            ) && s.net.right[k] == init_right(s.net.primary as int, s.net.len as int, k),
        options_shape(s.net.len, ss, s.net.hdr, s.net.up, s.net.down),
        forall|c: int|
            1 <= c <= s.net.len ==> column(
                s.net,
                c,
                #[trigger] col_entries(s.net.len as int, ss, c, ss.len() as int, 0),
            ),
        no_repeats(ss),
        1 <= i <= s.net.len,
    ensures
        s.cover(i).uncover(i).net == s.net,
{
    let net = s.net;
    let n = net.len as int;
    let es = col_entries(n, ss, i, ss.len() as int, 0);
    assert(column(net, i, es));
    let li = net.left[i] as int;
    let ri = net.right[i] as int;
    assert(net.left[i] == init_left(net.primary as int, n, i));
    assert(net.right[i] == init_right(net.primary as int, n, i));
    assert(0 <= li < net.ni() && 0 <= ri < net.ni());
    assert(net.left[li] == init_left(net.primary as int, n, li));
    assert(net.right[li] == init_right(net.primary as int, n, li));
    assert(net.left[ri] == init_left(net.primary as int, n, ri));
    assert(net.right[ri] == init_right(net.primary as int, n, ri));
    assert(item_linked(net, i));
    assert forall|j: int, q: int|
        0 <= 0 <= j < es.len() && #[trigger] same_option(net, es[j], q) && net.is_opt(q) && q != es[j]
            implies net.hdr[q] != i && (s.active(q, net.colored) ==> linked(net, q)) by {
        let e = es[j];
        assert(net.is_opt(e) && net.hdr[e] == i);
        assert(n + 1 < e < node_count(n, ss));
        let o = lemma_in_option(n, ss, e);
        lemma_option_bounds(n, ss, o, o + 1);
        let b = base(n, ss, o);
        let sa = spacer_after(n, ss, o);
        assert(net.hdr[sa] == -(o + 1));
        lemma_base_spacer(net.len, ss, net.hdr, net.up, net.down, o);
        assert(e != sa);
        let k = e - b - 1;
        assert(e == entry_at(n, ss, o, k));
        assert(net.hdr[e] == ss[o][k].0 + 1);
        if q <= b {
            assert(net.hdr[b] > 0);
        }
        if q >= sa {
            assert(net.hdr[sa] > 0);
        }
        let k2 = q - b - 1;
        assert(q == entry_at(n, ss, o, k2));
        assert(net.hdr[q] == ss[o][k2].0 + 1);
        if k < k2 {
            assert(ss[o][k].0 != ss[o][k2].0);
        } else {
            assert(ss[o][k2].0 != ss[o][k].0);
        }
        let c2 = net.hdr[q] as int;
        crate::links::lemma_col_facts(net, q);
        lemma_in_col(n, ss, c2, o, k2, ss.len() as int, 0);
        let l2 = col_entries(n, ss, c2, ss.len() as int, 0);
        assert(column(net, c2, l2));
        let m = choose|m: int| 0 <= m < l2.len() && l2[m] == q;
        lemma_column_linked(net, c2, l2, m);
    }
    assert(options_ok(s, i, es, 0));
    law_uncover_cover(s, i, es);
}

/// The other entries of the option of an entry `e` of a problem as built
/// are entries of other items, each in the column list of its item.
proof fn lemma_fresh_whole(s: LinksV, ss: Seq<Seq<(Count, Data)>>, act: Set<int>, cols: Seq<Seq<int>>, e: int)
    requires
        forall|q: int| #[trigger] s.net.is_opt(q) ==> live(s.net, q),
        s.wf(),
        options_shape(s.net.len, ss, s.net.hdr, s.net.up, s.net.down),
        cycles(s.net, s.net.len as int, cols),
        no_repeats(ss),
        forall|c: int| #[trigger] act.contains(c) <==> 1 <= c <= s.net.len,
        s.net.is_opt(e),
    ensures
        whole(s.net, act, cols, e),
{
    let net = s.net;
    let n = net.len as int;
    crate::links::lemma_col_facts(net, e);
    assert forall|q: int| #[trigger] same_option(net, e, q) && net.is_opt(q) && q != e implies {
        &&& net.hdr[q] != net.hdr[e]
        &&& live(net, q) ==> act.contains(net.hdr[q] as int) && cols[net.hdr[q] as int].contains(q)
        &&& !live(net, q) ==> !act.contains(net.hdr[q] as int)
    } by {
        lemma_node_count_ge(n, ss);
        assert(n + 1 < e < node_count(n, ss));
        let o = lemma_in_option(n, ss, e);
        lemma_option_bounds(n, ss, o, o + 1);
        let b = base(n, ss, o);
        let sa = spacer_after(n, ss, o);
        assert(net.hdr[sa] == -(o + 1));
        lemma_base_spacer(net.len, ss, net.hdr, net.up, net.down, o);
        assert(e != sa);
        let k = e - b - 1;
        assert(e == entry_at(n, ss, o, k));
        assert(net.hdr[e] == ss[o][k].0 + 1);
        if q <= b {
            assert(net.hdr[b] > 0);
        }
        if q >= sa {
            assert(net.hdr[sa] > 0);
        }
        let k2 = q - b - 1;
        assert(q == entry_at(n, ss, o, k2));
        assert(net.hdr[q] == ss[o][k2].0 + 1);
        if k < k2 {
            assert(ss[o][k].0 != ss[o][k2].0);
        } else {
            assert(ss[o][k2].0 != ss[o][k].0);
        }
        crate::links::lemma_col_facts(net, q);
    }
}

/// The entries of each item in the order of the options are the cycles
/// of the columns of a problem as built in that order, and hold every entry
/// of their item.
proof fn lemma_entry_cols(s: LinksV, ss: Seq<Seq<(Count, Data)>>) -> (cols: Seq<Seq<int>>)
    requires
        s.wf(),
        options_shape(s.net.len, ss, s.net.hdr, s.net.up, s.net.down),
        forall|c: int|
            1 <= c <= s.net.len ==> column(
                s.net,
                c,
                #[trigger] col_entries(s.net.len as int, ss, c, ss.len() as int, 0),
            ),
    ensures
        cycles(s.net, s.net.len as int, cols),
        forall|c: int| 1 <= c <= s.net.len ==> #[trigger] cols[c] == col_entries(s.net.len as int, ss, c, ss.len() as int, 0),
{
    let n = s.net.len as int;
    let cols = Seq::new((n + 1) as nat, |c: int| col_entries(n, ss, c, ss.len() as int, 0));
    assert forall|c: int| 1 <= c <= n implies column(s.net, c, #[trigger] cols[c]) by {
        assert(cols[c] == col_entries(n, ss, c, ss.len() as int, 0));
    }
    assert forall|x: int, c: int| 1 <= c <= n && #[trigger] s.net.is_opt(x) && s.net.hdr[x] == c implies #[trigger] cols[c].contains(x) by {
        let (o, k) = lemma_entry_of(s.net, ss, x);
        lemma_option_bounds(n, ss, o, o + 1);
        lemma_base_spacer(s.net.len, ss, s.net.hdr, s.net.up, s.net.down, o);
        assert(s.net.hdr[x] == ss[o][k].0 + 1);
        lemma_in_col(n, ss, c, o, k, ss.len() as int, 0);
    }
    cols
}

/// A problem as built, with no option naming an item twice and no entry
/// purified, is consistent with every item still to cover and column lists
/// `cols` that are the cycles of its columns and hold every entry of their
/// item, in whatever order they were built.
pub proof fn law_fresh_consistent(s: LinksV, ss: Seq<Seq<(Count, Data)>>, cols: Seq<Seq<int>>)
    requires
        s.wf(),
        forall|q: int| #[trigger] s.net.is_opt(q) ==> live(s.net, q),
        forall|k: int|
            0 <= k < s.net.ni() ==> #[trigger] s.net.left[k] == init_left(
                s.net.primary as int,
                s.net.len as int,
                k,
            ) && s.net.right[k] == init_right(s.net.primary as int, s.net.len as int, k),
        options_shape(s.net.len, ss, s.net.hdr, s.net.up, s.net.down),
        cycles(s.net, s.net.len as int, cols),
        no_repeats(ss),
    ensures
        consistent(s, Set::new(|c: int| 1 <= c <= s.net.len), cols),
{
    let net = s.net;
    let n = net.len as int;
    let act = Set::new(|c: int| 1 <= c <= n);
    assert forall|c: int| #[trigger] act.contains(c) implies net.is_hdr(c) && c < cols.len() && column(
        net,
        c,
        cols[c],
    ) && item_linked(net, c) by {
        let li = net.left[c] as int;
        let ri = net.right[c] as int;
        assert(net.left[c] == init_left(net.primary as int, n, c));
        assert(net.right[c] == init_right(net.primary as int, n, c));
        assert(0 <= li < net.ni() && 0 <= ri < net.ni());
        assert(net.left[li] == init_left(net.primary as int, n, li));
        assert(net.right[li] == init_right(net.primary as int, n, li));
        assert(net.left[ri] == init_left(net.primary as int, n, ri));
        assert(net.right[ri] == init_right(net.primary as int, n, ri));
    }
    assert forall|c: int, j: int| act.contains(c) && 0 <= j < cols[c].len() implies #[trigger] whole(
        net,
        act,
        cols,
        cols[c][j],
    ) by {
        assert(column(net, c, cols[c]));
        lemma_fresh_whole(s, ss, act, cols, cols[c][j]);
    }
}

/// Covering distinct items of a problem as built, with no option naming
/// an item twice and no entry purified, one after another, and then
/// uncovering them in the reverse order, gives back the same links, column
/// lengths and colors.
pub proof fn law_fresh_uncover_all_cover_all(s: LinksV, ss: Seq<Seq<(Count, Data)>>, items: Seq<int>)
    requires
        s.wf(),
        forall|q: int| #[trigger] s.net.is_opt(q) ==> live(s.net, q),
        forall|k: int|
            0 <= k < s.net.ni() ==> #[trigger] s.net.left[k] == init_left(
                s.net.primary as int,
                s.net.len as int,
                k,
            ) && s.net.right[k] == init_right(s.net.primary as int, s.net.len as int, k),
        options_shape(s.net.len, ss, s.net.hdr, s.net.up, s.net.down),
        forall|c: int|
            1 <= c <= s.net.len ==> column(
                s.net,
                c,
                #[trigger] col_entries(s.net.len as int, ss, c, ss.len() as int, 0),
            ),
        no_repeats(ss),
        forall|k: int| 0 <= k < items.len() ==> 1 <= #[trigger] items[k] <= s.net.len,
        forall|a: int, b: int| 0 <= a < b < items.len() ==> #[trigger] items[a] != #[trigger] items[b],
    ensures
        uncover_all(cover_all(s, items), items).net == s.net,
{
    let cols = lemma_entry_cols(s, ss);
    law_fresh_consistent(s, ss, cols);
    let act = Set::new(|c: int| 1 <= c <= s.net.len);
    assert forall|k: int| 0 <= k < items.len() implies act.contains(#[trigger] items[k]) by {}
    law_uncover_all_cover_all(s, act, cols, items);
}

/// The item lists of a problem as built: the primary items in order in
/// the cycle through node `0`, the secondary items in the cycle through
/// node `len + 1`.
proof fn lemma_fresh_lists(v: LinksV) -> (r: (Seq<int>, Seq<int>))
    requires
        v.wf(),
        forall|k: int|
            0 <= k < v.net.ni() ==> #[trigger] v.net.left[k] == init_left(
                v.net.primary as int,
                v.net.len as int,
                k,
            ) && v.net.right[k] == init_right(v.net.primary as int, v.net.len as int, k),
    ensures
        lists_ok(v.net, Set::new(|c: int| 1 <= c <= v.net.len), r.0, r.1),
{
    let s = v.net;
    let n1 = s.primary as int;
    let n = s.len as int;
    let act = Set::new(|c: int| 1 <= c <= n);
    let lst = Seq::new(n1 as nat, |k: int| k + 1);
    let slst = Seq::new((n - n1) as nat, |k: int| n1 + 1 + k);
    assert(s.left[0] == init_left(n1, n, 0));
    assert(s.right[0] == init_right(n1, n, 0));
    assert(s.left[n + 1] == init_left(n1, n, n + 1));
    assert(s.right[n + 1] == init_right(n1, n, n + 1));
    assert forall|k: int| 0 <= k < lst.len() implies s.right[#[trigger] lst[k]] == (if k + 1 < lst.len() {
        lst[k + 1]
    } else {
        0
    }) && s.left[lst[k]] == (if k > 0 {
        lst[k - 1]
    } else {
        0
    }) by {
        assert(s.left[k + 1] == init_left(n1, n, k + 1));
        assert(s.right[k + 1] == init_right(n1, n, k + 1));
    }
    assert forall|k: int| 0 <= k < slst.len() implies s.right[#[trigger] slst[k]] == (if k + 1 < slst.len() {
        slst[k + 1]
    } else {
        n + 1
    }) && s.left[slst[k]] == (if k > 0 {
        slst[k - 1]
    } else {
        n + 1
    }) by {
        assert(s.left[n1 + 1 + k] == init_left(n1, n, n1 + 1 + k));
        assert(s.right[n1 + 1 + k] == init_right(n1, n, n1 + 1 + k));
    }
    assert forall|c: int| #[trigger] act.contains(c) implies (c <= s.primary ==> lst.contains(c)) && (c > s.primary
        ==> slst.contains(c)) by {
        if c <= s.primary {
            assert(lst[c - 1] == c);
        } else {
            assert(slst[c - n1 - 1] == c);
        }
    }
    (lst, slst)
}

/// A search of a problem as built, in whatever order its column lists
/// `cols` were built, with no option naming an item twice, no entry
/// purified and colors only on entries of secondary items, is known to
/// undo itself.
pub proof fn law_fresh_tracked(s: LinksV, ss: Seq<Seq<(Count, Data)>>, cols: Seq<Seq<int>>)
    requires
        s.wf(),
        forall|q: int| #[trigger] s.net.is_opt(q) ==> live(s.net, q),
        colors_secondary(s.net),
        forall|k: int|
            0 <= k < s.net.ni() ==> #[trigger] s.net.left[k] == init_left(
                s.net.primary as int,
                s.net.len as int,
                k,
            ) && s.net.right[k] == init_right(s.net.primary as int, s.net.len as int, k),
        options_shape(s.net.len, ss, s.net.hdr, s.net.up, s.net.down),
        cycles(s.net, s.net.len as int, cols),
        no_repeats(ss),
    ensures
        tracked_start(s),
{
    law_fresh_consistent(s, ss, cols);
    let (lst, slst) = lemma_fresh_lists(s);
    let w = (Set::new(|c: int| 1 <= c <= s.net.len), cols, lst, slst);
    assert(start_witness(s, w));
}

/// A search of an exact cover problem assembled from item nodes linked in
/// order and option nodes (without colors) of the options `ss`, whose
/// columns are the cycles `cols` holding every entry of their items (in
/// any order), with no option naming an item twice, is known to undo
/// itself when its nodes are well formed.
pub proof fn law_x_tracked(
    items: INodes,
    opts: ONodes,
    np: Count,
    n: Count,
    ss: Seq<Seq<(Count, Data)>>,
    cols: Seq<Seq<int>>,
)
    requires
        items.primary == np,
        items.len == n,
        items.nodes@.len() == n + 2,
        forall|i: int|
            0 <= i < n + 2 ==> #[trigger] items.nodes@[i] == (INode {
                left: init_left(np as int, n as int, i) as usize,
                right: init_right(np as int, n as int, i) as usize,
            }),
        options_shape(n, ss, hdrs(opts.nodes@), ups(opts.nodes@), downs(opts.nodes@)),
        cycles(column_net(n, hdrs(opts.nodes@), ups(opts.nodes@), downs(opts.nodes@)), n as int, cols),
        no_repeats(ss),
        x_links(items, opts).wf(),
    ensures
        tracked_start(x_links(items, opts)),
{
    let s = x_links(items, opts);
    assert forall|k: int| 0 <= k < s.net.ni() implies #[trigger] s.net.left[k] == init_left(
        s.net.primary as int,
        s.net.len as int,
        k,
    ) && s.net.right[k] == init_right(s.net.primary as int, s.net.len as int, k) by {
        assert(items.nodes@[k] == (INode {
            left: init_left(np as int, n as int, k) as usize,
            right: init_right(np as int, n as int, k) as usize,
        }));
        assert(0 <= init_left(np as int, n as int, k) <= n + 1);
        assert(0 <= init_right(np as int, n as int, k) <= n + 1);
        reveal(Net::layout);
        assert(s.net.ni() <= s.net.n() < isize::MAX);
        assert(s.net.left[k] == items.nodes@[k].left);
        assert(s.net.right[k] == items.nodes@[k].right);
    }
    lemma_cycles_same(column_net(n, hdrs(opts.nodes@), ups(opts.nodes@), downs(opts.nodes@)), s.net, cols);
    law_fresh_tracked(s, ss, cols);
}

/// Every option node of a problem as built is an entry of some option,
/// with the item and color that option gives it.
proof fn lemma_entry_of(s: Net, ss: Seq<Seq<(Count, Data)>>, e: int) -> (r: (int, int))
    requires
        s.wf(),
        options_shape(s.len, ss, s.hdr, s.up, s.down),
        s.is_opt(e),
    ensures
        0 <= r.0 < ss.len(),
        0 <= r.1 < ss[r.0].len(),
        e == entry_at(s.len as int, ss, r.0, r.1),
{
    let n = s.len as int;
    crate::links::lemma_col_facts(s, e);
    lemma_node_count_ge(n, ss);
    assert(n + 1 < e < node_count(n, ss));
    let o = lemma_in_option(n, ss, e);
    lemma_option_bounds(n, ss, o, o + 1);
    let b = base(n, ss, o);
    let sa = spacer_after(n, ss, o);
    assert(s.hdr[sa] == -(o + 1));
    assert(e != sa);
    (o, e - b - 1)
}

/// A search of an exact cover problem with colors assembled from item
/// nodes linked in order and option nodes of the options `ss`, whose
/// columns are the cycles `cols` holding every entry of their items (in
/// any order), with no option naming an item twice, no negative color and
/// colors only for secondary items, is known to undo itself when its nodes
/// are well formed.
pub proof fn law_c_tracked(
    items: INodes,
    opts: crate::c::ONodes,
    np: Count,
    n: Count,
    ss: Seq<Seq<(Count, Data)>>,
    cols: Seq<Seq<int>>,
)
    requires
        items.primary == np,
        items.len == n,
        items.nodes@.len() == n + 2,
        forall|i: int|
            0 <= i < n + 2 ==> #[trigger] items.nodes@[i] == (INode {
                left: init_left(np as int, n as int, i) as usize,
                right: init_right(np as int, n as int, i) as usize,
            }),
        options_shape(
            n,
            ss,
            crate::c::hdrs(opts.nodes@),
            crate::c::ups(opts.nodes@),
            crate::c::downs(opts.nodes@),
        ),
        options_colors(n, ss, crate::c::colors(opts.nodes@)),
        cycles(
            column_net(n, crate::c::hdrs(opts.nodes@), crate::c::ups(opts.nodes@), crate::c::downs(opts.nodes@)),
            n as int,
            cols,
        ),
        no_repeats(ss),
        forall|o: int, k: int|
            0 <= o < ss.len() && 0 <= k < ss[o].len() ==> #[trigger] ss[o][k].1 >= 0 && (ss[o][k].1 > 0
                ==> ss[o][k].0 >= np),
        crate::c::links_with(
            crate::x::lefts(items.nodes@),
            crate::x::rights(items.nodes@),
            Seq::new(items.nodes@.len(), |i: int| 0isize),
            Seq::new(items.nodes@.len(), |i: int| 0isize),
            opts.nodes@,
            items.primary,
            items.len,
            false,
        ).wf(),
    ensures
        tracked_start(
            crate::c::links_with(
                crate::x::lefts(items.nodes@),
                crate::x::rights(items.nodes@),
                Seq::new(items.nodes@.len(), |i: int| 0isize),
                Seq::new(items.nodes@.len(), |i: int| 0isize),
                opts.nodes@,
                items.primary,
                items.len,
                false,
            ),
        ),
{
    let s = crate::c::links_with(
        crate::x::lefts(items.nodes@),
        crate::x::rights(items.nodes@),
        Seq::new(items.nodes@.len(), |i: int| 0isize),
        Seq::new(items.nodes@.len(), |i: int| 0isize),
        opts.nodes@,
        items.primary,
        items.len,
        false,
    );
    assert forall|k: int| 0 <= k < s.net.ni() implies #[trigger] s.net.left[k] == init_left(
        s.net.primary as int,
        s.net.len as int,
        k,
    ) && s.net.right[k] == init_right(s.net.primary as int, s.net.len as int, k) by {
        assert(items.nodes@[k] == (INode {
            left: init_left(np as int, n as int, k) as usize,
            right: init_right(np as int, n as int, k) as usize,
        }));
        assert(0 <= init_left(np as int, n as int, k) <= n + 1);
        assert(0 <= init_right(np as int, n as int, k) <= n + 1);
        reveal(Net::layout);
        assert(s.net.ni() <= s.net.n() < isize::MAX);
        assert(s.net.left[k] == items.nodes@[k].left);
        assert(s.net.right[k] == items.nodes@[k].right);
    }
    assert forall|e: int| #[trigger] s.net.is_opt(e) implies live(s.net, e) && (s.net.color[e] > 0 ==> s.net.hdr[e]
        > s.net.primary) by {
        let (o, k) = lemma_entry_of(s.net, ss, e);
        assert(ss[o][k].1 >= 0 && (ss[o][k].1 > 0 ==> ss[o][k].0 >= np));
        assert(s.net.color[e] == ss[o][k].1);
        assert(s.net.hdr[e] == ss[o][k].0 + 1);
    }
    lemma_cycles_same(
        column_net(n, crate::c::hdrs(opts.nodes@), crate::c::ups(opts.nodes@), crate::c::downs(opts.nodes@)),
        s.net,
        cols,
    );
    law_fresh_tracked(s, ss, cols);
}

/// Whether column lists are the cycles of the columns, holding every entry
/// of their items, depends only on the option nodes.
proof fn lemma_cycles_same(a: Net, b: Net, cols: Seq<Seq<int>>)
    requires
        a.hdr == b.hdr,
        a.up == b.up,
        a.down == b.down,
        a.len == b.len,
        cycles(a, a.len as int, cols),
    ensures
        cycles(b, b.len as int, cols),
{
    assert forall|c: int| 1 <= c <= b.len implies column(b, c, #[trigger] cols[c]) by {
        lemma_column_same(a, b, c, cols[c]);
    }
    assert forall|x: int, c: int| 1 <= c <= b.len && #[trigger] b.is_opt(x) && b.hdr[x] == c implies #[trigger] cols[c].contains(x) by {
        assert(a.is_opt(x));
    }
}

} // verus!
