//! Algorithm C: exact cover with colors on secondary items.

use vstd::prelude::*;

use crate::links::{
    hide_walk, lemma_col_facts, lemma_color_wf, lemma_frame_cols, lemma_frame_trans, unhide_walk,
    Links,
};
use crate::covering::column;
use crate::construct::{
    assemble, build_options, col_entries, column_net, columns_ok, cycles, lemma_column_same, init_left, init_right, lemma_same_options, node_count,
    opt_seqs, options_colors, options_shape, zeros, OptArrays,
};
use crate::construct::{fits, lemma_node_count_ge, occurrences, seqs_of};
use crate::fresh::{law_c_tracked, no_repeats};
use crate::solver::tracked_start;
use crate::links::{LinksV, Net};
use crate::spec_text::{
    check_names, color_all, color_options, lemma_color_options_bound, lemma_color_options_ok, string_views, Spec,
};
use crate::x;
use crate::{Count, Dance, Data, Error, Link, OptOrder};

verus! {

/// Commit entry `p` of item `j`: cover `j` when `p` has no color, purify
/// `p` when it has one.
pub fn commit(p: Link, j: Link, dance: &mut Links)
    requires
        old(dance)@.wf(),
        old(dance)@.net.is_opt(p as int),
        old(dance)@.net.is_hdr(j as int),
    ensures
        final(dance)@ == old(dance)@.commit_with(p as int, j as int, true),
        final(dance)@.wf(),
        final(dance)@.net.same_frame(old(dance)@.net),
        final(dance)@.ft == old(dance)@.ft,
{
    let ghost s0 = dance@;
    proof {
        lemma_col_facts(s0.net, p as int);
    }
    if dance.color[p] == 0 {
        crate::x::cover(j, dance);
    }
    proof {
        lemma_frame_cols(s0.net, dance@.net, p as int);
    }
    if dance.color[p] > 0 {
        let ghost mid = dance@;
        purify(p, dance);
        proof {
            lemma_frame_trans(dance@.net, mid.net, s0.net);
        }
    }
}

/// Undo `commit(p, j)`.
pub fn uncommit(p: Link, j: Link, dance: &mut Links)
    requires
        old(dance)@.wf(),
        old(dance)@.net.is_opt(p as int),
        old(dance)@.net.is_hdr(j as int),
    ensures
        final(dance)@ == old(dance)@.uncommit_with(p as int, j as int, true),
        final(dance)@.wf(),
        final(dance)@.net.same_frame(old(dance)@.net),
        final(dance)@.ft == old(dance)@.ft,
{
    let ghost s0 = dance@;
    proof {
        lemma_col_facts(s0.net, p as int);
    }
    if dance.color[p] == 0 {
        crate::x::uncover(j, dance);
    }
    proof {
        lemma_frame_cols(s0.net, dance@.net, p as int);
    }
    if dance.color[p] > 0 {
        let ghost mid = dance@;
        unpurify(p, dance);
        proof {
            lemma_frame_trans(dance@.net, mid.net, s0.net);
        }
    }
}

/// Hide the option of entry `p`, leaving purified entries in place.
pub fn hide_option(p: Link, dance: &mut Links)
    requires
        old(dance)@.wf(),
        old(dance)@.net.is_opt(p as int),
    ensures
        final(dance)@ == old(dance)@.hide_with(p as int, true),
        final(dance)@.wf(),
        final(dance)@.net.same_frame(old(dance)@.net),
        final(dance)@.ft == old(dance)@.ft,
{
    hide_walk(p, dance, true);
}

/// Undo `hide_option(p)`.
pub fn unhide(p: Link, dance: &mut Links)
    requires
        old(dance)@.wf(),
        old(dance)@.net.is_opt(p as int),
    ensures
        final(dance)@ == old(dance)@.unhide_with(p as int, true),
        final(dance)@.wf(),
        final(dance)@.net.same_frame(old(dance)@.net),
        final(dance)@.ft == old(dance)@.ft,
{
    unhide_walk(p, dance, true);
}

/// Purify entry `p`: in its column, mark the entries of its color and hide
/// the options of the others.
pub fn purify(p: Link, dance: &mut Links)
    requires
        old(dance)@.wf(),
        old(dance)@.net.is_opt(p as int),
    ensures
        final(dance)@ == old(dance)@.purify(p as int),
        final(dance)@.wf(),
        final(dance)@.net.same_frame(old(dance)@.net),
        final(dance)@.ft == old(dance)@.ft,
{
    let ghost s0 = dance@;
    proof {
        lemma_col_facts(s0.net, p as int);
    }
    let c = dance.color[p];
    let i = dance.hdr[p] as usize;
    proof {
        lemma_col_facts(s0.net, i as int);
    }
    let n = dance.hdr.len();
    let mut q = dance.down[i];
    let mut fuel = n;
    while q != i && fuel > 0
        invariant
            s0.wf(),
            s0.net.is_hdr(i as int),
            n == s0.net.n(),
            dance@.wf(),
            dance@.net.same_frame(s0.net),
            dance@.ft == s0.ft,
            dance@.net.is_col(q as int),
            dance@.net.col_of(q as int) == i,
            fuel <= n,
            dance@.purify_walk(c, i as int, q as int, fuel as nat) == s0.purify(p as int),
        decreases fuel,
    {
        let ghost before = dance@;
        proof {
            lemma_col_facts(dance@.net, q as int);
        }
        if dance.color[q] == c {
            proof {
                lemma_color_wf(dance@, q as int, -1isize);
            }
            dance.color.set(q, -1);
        } else {
            hide_walk(q, dance, true);
        }
        proof {
            lemma_frame_trans(dance@.net, before.net, s0.net);
            lemma_frame_cols(before.net, dance@.net, q as int);
            lemma_col_facts(dance@.net, q as int);
        }
        q = dance.down[q];
        fuel -= 1;
    }
}

/// Undo `purify(p)`, walking up the column.
pub fn unpurify(p: Link, dance: &mut Links)
    requires
        old(dance)@.wf(),
        old(dance)@.net.is_opt(p as int),
    ensures
        final(dance)@ == old(dance)@.unpurify(p as int),
        final(dance)@.wf(),
        final(dance)@.net.same_frame(old(dance)@.net),
        final(dance)@.ft == old(dance)@.ft,
{
    let ghost s0 = dance@;
    proof {
        lemma_col_facts(s0.net, p as int);
    }
    let c = dance.color[p];
    let i = dance.hdr[p] as usize;
    proof {
        lemma_col_facts(s0.net, i as int);
    }
    let n = dance.hdr.len();
    let mut q = dance.up[i];
    let mut fuel = n;
    while q != i && fuel > 0
        invariant
            s0.wf(),
            s0.net.is_hdr(i as int),
            n == s0.net.n(),
            dance@.wf(),
            dance@.net.same_frame(s0.net),
            dance@.ft == s0.ft,
            dance@.net.is_col(q as int),
            dance@.net.col_of(q as int) == i,
            fuel <= n,
            dance@.unpurify_walk(c, i as int, q as int, fuel as nat) == s0.unpurify(p as int),
        decreases fuel,
    {
        let ghost before = dance@;
        proof {
            lemma_col_facts(dance@.net, q as int);
        }
        if dance.color[q] < 0 {
            proof {
                lemma_color_wf(dance@, q as int, c);
            }
            dance.color.set(q, c);
        } else {
            unhide_walk(q, dance, true);
        }
        proof {
            lemma_frame_trans(dance@.net, before.net, s0.net);
            lemma_frame_cols(before.net, dance@.net, q as int);
            lemma_col_facts(dance@.net, q as int);
        }
        q = dance.up[q];
        fuel -= 1;
    }
}


/// An option node with a color: `0` for none, `-1` once purified.
#[derive(Copy, Clone, Debug, Default, PartialEq, Eq)]
pub struct ONode {
    pub hdr_info: Data,
    pub up: Link,
    pub down: Link,
    pub color: Data,
}

/// The option nodes of an exact cover problem with colors.
#[derive(Clone, Debug, Default, PartialEq, Eq)]
pub struct ONodes {
    pub nodes: Vec<ONode>,
}

/// The header fields of colored option nodes.
pub open spec fn hdrs(s: Seq<ONode>) -> Seq<Data> {
    s.map_values(|v: ONode| v.hdr_info)
}

/// The up links of colored option nodes.
pub open spec fn ups(s: Seq<ONode>) -> Seq<Link> {
    s.map_values(|v: ONode| v.up)
}

/// The down links of colored option nodes.
pub open spec fn downs(s: Seq<ONode>) -> Seq<Link> {
    s.map_values(|v: ONode| v.down)
}

/// The colors of option nodes.
pub open spec fn colors(s: Seq<ONode>) -> Seq<Data> {
    s.map_values(|v: ONode| v.color)
}

impl ONodes {
    /// The option nodes of options `os` over `n` items: each entry is an
    /// item (item `k` is column `k + 1`) and its color, entries joining
    /// their columns in `order`.
    pub fn new(n: Count, np: Count, os: &[Vec<(Count, Data)>], order: OptOrder) -> (r: ONodes)
        requires
            forall|o: int, k: int|
                0 <= o < os@.len() && 0 <= k < os@[o]@.len() ==> #[trigger] os@[o]@[k].0 < n,
            node_count(n as int, opt_seqs(os@)) < isize::MAX,
            order is Rnd ==> forall|c: int| 0 <= c < n ==> #[trigger] occurrences(opt_seqs(os@), c) < 0x8000_0000,
        ensures
            options_shape(n, opt_seqs(os@), hdrs(r.nodes@), ups(r.nodes@), downs(r.nodes@)),
            options_colors(n, opt_seqs(os@), colors(r.nodes@)),
            column_net(n, hdrs(r.nodes@), ups(r.nodes@), downs(r.nodes@)).layout(),
            column_net(n, hdrs(r.nodes@), ups(r.nodes@), downs(r.nodes@)).closed(),
            exists|cols: Seq<Seq<int>>|
                #[trigger] cycles(
                    column_net(n, hdrs(r.nodes@), ups(r.nodes@), downs(r.nodes@)),
                    n as int,
                    cols,
                ),
            order is Sequential ==> forall|c: int|
                1 <= c <= n ==> column(
                    column_net(n, hdrs(r.nodes@), ups(r.nodes@), downs(r.nodes@)),
                    c,
                    #[trigger] col_entries(n as int, opt_seqs(os@), c, os@.len() as int, 0),
                ),
    {
        let ghost seq_order = order is Sequential;
        let a = build_options(n, os, order);
        let mut nodes: Vec<ONode> = Vec::new();
        let mut i: usize = 0;
        while i < a.hdr.len()
            invariant
                a.up@.len() == a.hdr@.len(),
                a.down@.len() == a.hdr@.len(),
                a.color@.len() == a.hdr@.len(),
                i <= a.hdr@.len(),
                nodes@.len() == i,
                forall|j: int|
                    0 <= j < i ==> #[trigger] nodes@[j] == (ONode {
                        hdr_info: a.hdr@[j],
                        up: a.up@[j],
                        down: a.down@[j],
                        color: a.color@[j],
                    }),
            decreases a.hdr@.len() - i,
        {
            nodes.push(ONode { hdr_info: a.hdr[i], up: a.up[i], down: a.down[i], color: a.color[i] });
            i += 1;
        }
        proof {
            assert(hdrs(nodes@) =~= a.hdr@);
            assert(ups(nodes@) =~= a.up@);
            assert(downs(nodes@) =~= a.down@);
            assert(colors(nodes@) =~= a.color@);
            lemma_same_options(a.net(n), column_net(n, a.hdr@, a.up@, a.down@));
            let cols = choose|cols: Seq<Seq<int>>| columns_ok(a, n, cols);
            assert forall|c: int| 1 <= c <= n implies column(
                column_net(n, a.hdr@, a.up@, a.down@),
                c,
                #[trigger] cols[c],
            ) by {
                assert(column(a.net(n), c, cols[c]));
                lemma_column_same(a.net(n), column_net(n, a.hdr@, a.up@, a.down@), c, cols[c]);
            }
            assert forall|x: int, c: int|
                1 <= c <= n && #[trigger] column_net(n, a.hdr@, a.up@, a.down@).is_opt(x) && column_net(
                    n,
                    a.hdr@,
                    a.up@,
                    a.down@,
                ).hdr[x] == c implies #[trigger] cols[c].contains(x) by {
                assert(a.net(n).is_opt(x));
            }
            assert(cycles(column_net(n, a.hdr@, a.up@, a.down@), n as int, cols));
            if seq_order {
                assert forall|c: int| 1 <= c <= n implies column(
                    column_net(n, a.hdr@, a.up@, a.down@),
                    c,
                    #[trigger] col_entries(n as int, opt_seqs(os@), c, os@.len() as int, 0),
                ) by {
                    lemma_column_same(a.net(n), column_net(n, a.hdr@, a.up@, a.down@), c, col_entries(n as int, opt_seqs(os@), c, os@.len() as int, 0));
                }
            }
        }
        ONodes { nodes }
    }
}

/// The fields of colored option nodes, in four vectors.
pub fn option_vecs(opts: &ONodes) -> (r: OptArrays)
    ensures
        r.hdr@ == hdrs(opts.nodes@),
        r.up@ == ups(opts.nodes@),
        r.down@ == downs(opts.nodes@),
        r.color@ == colors(opts.nodes@),
{
    let mut hdr: Vec<Data> = Vec::new();
    let mut up: Vec<Link> = Vec::new();
    let mut down: Vec<Link> = Vec::new();
    let mut color: Vec<Data> = Vec::new();
    let mut i: usize = 0;
    while i < opts.nodes.len()
        invariant
            i <= opts.nodes@.len(),
            hdr@.len() == i,
            up@.len() == i,
            down@.len() == i,
            color@.len() == i,
            forall|j: int| 0 <= j < i ==> #[trigger] hdr@[j] == opts.nodes@[j].hdr_info,
            forall|j: int| 0 <= j < i ==> #[trigger] up@[j] == opts.nodes@[j].up,
            forall|j: int| 0 <= j < i ==> #[trigger] down@[j] == opts.nodes@[j].down,
            forall|j: int| 0 <= j < i ==> #[trigger] color@[j] == opts.nodes@[j].color,
        decreases opts.nodes@.len() - i,
    {
        let v = opts.nodes[i];
        hdr.push(v.hdr_info);
        up.push(v.up);
        down.push(v.down);
        color.push(v.color);
        i += 1;
    }
    proof {
        assert(hdr@ =~= hdrs(opts.nodes@));
        assert(up@ =~= ups(opts.nodes@));
        assert(down@ =~= downs(opts.nodes@));
        assert(color@ =~= colors(opts.nodes@));
    }
    OptArrays { hdr, up, down, color }
}

/// The colored option nodes of a problem's nodes.
pub fn opts_of(core: &Links) -> (r: ONodes)
    requires
        core.up@.len() == core.hdr@.len(),
        core.down@.len() == core.hdr@.len(),
        core.color@.len() == core.hdr@.len(),
    ensures
        hdrs(r.nodes@) == core@.net.hdr,
        ups(r.nodes@) == core@.net.up,
        downs(r.nodes@) == core@.net.down,
        colors(r.nodes@) == core@.net.color,
{
    let mut nodes: Vec<ONode> = Vec::new();
    let mut i: usize = 0;
    while i < core.hdr.len()
        invariant
            core.up@.len() == core.hdr@.len(),
            core.down@.len() == core.hdr@.len(),
            core.color@.len() == core.hdr@.len(),
            i <= core.hdr@.len(),
            nodes@.len() == i,
            forall|j: int|
                0 <= j < i ==> #[trigger] nodes@[j] == (ONode {
                    hdr_info: core.hdr@[j],
                    up: core.up@[j],
                    down: core.down@[j],
                    color: core.color@[j],
                }),
        decreases core.hdr@.len() - i,
    {
        nodes.push(
            ONode { hdr_info: core.hdr[i], up: core.up[i], down: core.down[i], color: core.color[i] },
        );
        i += 1;
    }
    proof {
        assert(hdrs(nodes@) =~= core.hdr@);
        assert(ups(nodes@) =~= core.up@);
        assert(downs(nodes@) =~= core.down@);
        assert(colors(nodes@) =~= core.color@);
    }
    ONodes { nodes }
}

/// The nodes of a problem with item nodes `left`, `right` (with `slack`
/// and `bound`), colored option nodes `opts`, `primary` primary items out
/// of `len`, before any update.
pub open spec fn links_with(
    left: Seq<Link>,
    right: Seq<Link>,
    slack: Seq<Data>,
    bound: Seq<Data>,
    opts: Seq<ONode>,
    primary: Count,
    len: Count,
    multi: bool,
) -> LinksV {
    LinksV {
        net: Net {
            left: left,
            right: right,
            slack: slack,
            bound: bound,
            hdr: hdrs(opts),
            up: ups(opts),
            down: downs(opts),
            color: colors(opts),
            primary: primary,
            len: len,
            colored: true,
            multi: multi,
        },
        ft: Seq::empty(),
        updates: 0,
    }
}

/// An exact cover problem with colors.
pub struct Problem {
    core: Links,
}

impl Problem {
    /// The problem with item nodes `items` and colored option nodes `opts`.
    pub fn new(items: x::INodes, opts: ONodes) -> (r: Problem)
        ensures
            r.dance_view() == links_with(
                x::lefts(items.nodes@),
                x::rights(items.nodes@),
                Seq::new(items.nodes@.len(), |i: int| 0isize),
                Seq::new(items.nodes@.len(), |i: int| 0isize),
                opts.nodes@,
                items.primary,
                items.len,
                false,
            ),
    {
        let (left, right) = x::item_vecs(&items);
        let a = option_vecs(&opts);
        let slack = zeros(items.nodes.len());
        let bound = zeros(items.nodes.len());
        let core = assemble(left, right, slack, bound, a, items.primary, items.len, true, false);
        proof {
            assert(core@.net.slack =~= Seq::new(items.nodes@.len(), |i: int| 0isize));
            assert(core@.net.bound =~= Seq::new(items.nodes@.len(), |i: int| 0isize));
        }
        Problem { core }
    }

    /// The item nodes as they are now.
    pub fn items(&self) -> (r: x::INodes)
        requires
            self.dance_view().net.left.len() == self.dance_view().net.right.len(),
        ensures
            x::lefts(r.nodes@) == self.dance_view().net.left,
            x::rights(r.nodes@) == self.dance_view().net.right,
            r.primary == self.dance_view().net.primary,
            r.len == self.dance_view().net.len,
    {
        x::items_of(&self.core)
    }

    /// The colored option nodes as they are now.
    pub fn opts(&self) -> (r: ONodes)
        requires
            self.dance_view().net.up.len() == self.dance_view().net.hdr.len(),
            self.dance_view().net.down.len() == self.dance_view().net.hdr.len(),
            self.dance_view().net.color.len() == self.dance_view().net.hdr.len(),
        ensures
            hdrs(r.nodes@) == self.dance_view().net.hdr,
            ups(r.nodes@) == self.dance_view().net.up,
            downs(r.nodes@) == self.dance_view().net.down,
            colors(r.nodes@) == self.dance_view().net.color,
    {
        opts_of(&self.core)
    }
}

/// No color is negative, and only entries of secondary items (from `np`
/// on) have colors.
pub open spec fn colors_ok(ss: Seq<Seq<(Count, Data)>>, np: int) -> bool {
    forall|o: int, k: int|
        0 <= o < ss.len() && 0 <= k < ss[o].len() ==> #[trigger] ss[o][k].1 >= 0 && (ss[o][k].1 > 0 ==> ss[o][k].0
            >= np)
}

/// The problem of `np` primary and `ns` secondary items and colored
/// options `os`.
pub fn make_problem(np: Count, ns: Count, os: &[Vec<(Count, Data)>], order: OptOrder) -> (r: Problem)
    requires
        np + ns < isize::MAX,
        forall|o: int, k: int|
            0 <= o < os@.len() && 0 <= k < os@[o]@.len() ==> #[trigger] os@[o]@[k].0 < np + ns,
        node_count((np + ns) as int, opt_seqs(os@)) < isize::MAX,
        order is Rnd ==> forall|c: int| 0 <= c < np + ns ==> #[trigger] occurrences(opt_seqs(os@), c) < 0x8000_0000,
    ensures
        r.dance_view().net.primary == np,
        r.dance_view().net.len == np + ns,
        r.dance_view().net.colored,
        !r.dance_view().net.multi,
        r.dance_view().ft == Seq::<Link>::empty(),
        r.dance_view().updates == 0,
        r.dance_view().net.left.len() == np + ns + 2,
        r.dance_view().net.right.len() == np + ns + 2,
        forall|i: int|
            0 <= i < np + ns + 2 ==> #[trigger] r.dance_view().net.left[i] == init_left(
                np as int,
                np + ns,
                i,
            ) && r.dance_view().net.right[i] == init_right(np as int, np + ns, i),
        r.dance_view().net.slack == Seq::new((np + ns + 2) as nat, |i: int| 0isize),
        r.dance_view().net.bound == Seq::new((np + ns + 2) as nat, |i: int| 0isize),
        options_shape(
            (np + ns) as Count,
            opt_seqs(os@),
            r.dance_view().net.hdr,
            r.dance_view().net.up,
            r.dance_view().net.down,
        ),
        options_colors((np + ns) as Count, opt_seqs(os@), r.dance_view().net.color),
        order is Sequential ==> forall|c: int|
            1 <= c <= np + ns ==> column(
                r.dance_view().net,
                c,
                #[trigger] col_entries((np + ns) as int, opt_seqs(os@), c, os@.len() as int, 0),
            ),
        r.dance_view().wf(),
        no_repeats(opt_seqs(os@)) && colors_ok(opt_seqs(os@), np as int) ==> tracked_start(r.dance_view()),
{
    let ghost seq_order = order is Sequential;
    let items = x::INodes::new(np, ns);
    let opts = ONodes::new(np + ns, np, os, order);
    let ghost gi = items;
    let ghost go = opts;
    let r = Problem::new(items, opts);
    proof {
        assert forall|i: int| 0 <= i < np + ns + 2 implies #[trigger] r.dance_view().net.left[i]
            == init_left(np as int, np + ns, i) && r.dance_view().net.right[i] == init_right(
            np as int,
            np + ns,
            i,
        ) by {
            assert(gi.nodes@[i].left == init_left(np as int, np + ns, i));
        }
        if seq_order {
            assert forall|c: int| 1 <= c <= np + ns implies column(
                r.dance_view().net,
                c,
                #[trigger] col_entries((np + ns) as int, opt_seqs(os@), c, os@.len() as int, 0),
            ) by {
                let l = col_entries((np + ns) as int, opt_seqs(os@), c, os@.len() as int, 0);
                assert(column(column_net((np + ns) as Count, hdrs(go.nodes@), ups(go.nodes@), downs(go.nodes@)), c, l));
                lemma_column_same(
                    column_net((np + ns) as Count, hdrs(go.nodes@), ups(go.nodes@), downs(go.nodes@)),
                    r.dance_view().net,
                    c,
                    l,
                );
            }
        }
        let net = column_net((np + ns) as Count, hdrs(go.nodes@), ups(go.nodes@), downs(go.nodes@));
        lemma_same_options(net, r.dance_view().net);
        assert forall|i: int| 0 <= i < r.dance_view().net.ni() implies #[trigger] r.dance_view().net.left[i]
            < r.dance_view().net.ni() && r.dance_view().net.right[i] < r.dance_view().net.ni() by {
            assert(r.dance_view().net.left[i] == init_left(np as int, np + ns, i));
            assert(r.dance_view().net.right[i] == init_right(np as int, np + ns, i));
        }
        lemma_node_count_ge((np + ns) as int, opt_seqs(os@));
        assert(r.dance_view().net.sized());
        if no_repeats(opt_seqs(os@)) && colors_ok(opt_seqs(os@), np as int) {
            let cols = choose|cols: Seq<Seq<int>>| #[trigger] cycles(net, (np + ns) as int, cols);
            law_c_tracked(gi, go, np, (np + ns) as Count, opt_seqs(os@), cols);
        }
    }
    r
}

impl ONodes {
    /// The colored option nodes of the options of `spec`, whose words name
    /// items of `names` with an optional color, entries joining their
    /// columns in order: the errors of [`color_word`] for the first failing
    /// word, and `TooLarge` when the nodes would be `isize::MAX` or more.
    pub fn from_spec(spec: &Spec, names: &Vec<String>) -> (r: Result<ONodes, Error>)
        requires
            names@.len() == spec.primary@.len() + spec.secondary@.len(),
        ensures
            ({
                let n = (spec.primary@.len() + spec.secondary@.len()) as Count;
                let res = color_options(string_views(names@), spec.primary@.len() as int, spec@.opts);
                match r {
                    Ok(o) => {
                        &&& res matches Ok(os)
                        &&& node_count(n as int, os) < isize::MAX
                        &&& options_shape(n, os, hdrs(o.nodes@), ups(o.nodes@), downs(o.nodes@))
                        &&& options_colors(n, os, colors(o.nodes@))
                        &&& column_net(n, hdrs(o.nodes@), ups(o.nodes@), downs(o.nodes@)).layout()
                        &&& column_net(n, hdrs(o.nodes@), ups(o.nodes@), downs(o.nodes@)).closed()
                        &&& exists|cols: Seq<Seq<int>>|
                            #[trigger] cycles(
                                column_net(n, hdrs(o.nodes@), ups(o.nodes@), downs(o.nodes@)),
                                n as int,
                                cols,
                            )
                        &&& forall|c: int|
                            1 <= c <= n ==> column(
                                column_net(n, hdrs(o.nodes@), ups(o.nodes@), downs(o.nodes@)),
                                c,
                                #[trigger] col_entries(n as int, os, c, os.len() as int, 0),
                            )
                    },
                    Err(e) => res == Err::<Seq<Seq<(Count, Data)>>, Error>(e) || (res matches Ok(
                        os,
                    ) && node_count(n as int, os) >= isize::MAX && e == Error::TooLarge),
                }
            }),
    {
        let n = names.len();
        let np = spec.primary.len();
        match color_all(names, np, &spec.opts) {
            Err(e) => Err(e),
            Ok(os) => {
                proof {
                    lemma_color_options_bound(string_views(names@), np as int, spec@.opts);
                    assert(seqs_of(os@) == opt_seqs(os@));
                }
                if !fits(n, &os) {
                    return Err(Error::TooLarge);
                }
                proof {
                    assert forall|o: int, k: int|
                        0 <= o < os@.len() && 0 <= k < os@[o]@.len() implies #[trigger] os@[o]@[k].0
                        < n by {
                        assert(opt_seqs(os@)[o][k] == os@[o]@[k]);
                    }
                }
                Ok(ONodes::new(n, np, &os, OptOrder::Sequential))
            },
        }
    }
}

impl Problem {
    /// The problem with colors of `spec`: the errors of
    /// [`x::INodes::from_spec`], then those of [`ONodes::from_spec`].
    #[verifier::spinoff_prover]
    #[verifier::rlimit(40)]
    pub fn from_spec(spec: &Spec) -> (r: Result<Problem, Error>)
        requires
            spec.primary@.len() + spec.secondary@.len() < isize::MAX,
        ensures
            ({
                let np = spec.primary@.len();
                let n = np + spec.secondary@.len();
                let names = x::item_names(spec@);
                let res = color_options(names, np as int, spec@.opts);
                match r {
                    Ok(p) => {
                        &&& check_names(names) == Ok::<(), Error>(())
                        &&& res matches Ok(os)
                        &&& node_count(n as int, os) < isize::MAX
                        &&& x::fresh(p.dance_view(), np as int, n as int, os)
                        &&& options_colors(n as Count, os, p.dance_view().net.color)
                        &&& p.dance_view().net.colored
                        &&& !p.dance_view().net.multi
                        &&& forall|c: int|
                            1 <= c <= n ==> column(
                                p.dance_view().net,
                                c,
                                #[trigger] col_entries(n as int, os, c, os.len() as int, 0),
                            )
                        &&& p.dance_view().wf()
                        &&& colors_ok(os, np as int)
                        &&& no_repeats(os) ==> tracked_start(
                            p.dance_view(),
                        )
                    },
                    Err(e) => check_names(names) == Err::<(), Error>(e) || (check_names(names)
                        == Ok::<(), Error>(()) && (res == Err::<Seq<Seq<(Count, Data)>>, Error>(e)
                        || (res matches Ok(os) && node_count(n as int, os) >= isize::MAX && e
                        == Error::TooLarge))),
                }
            }),
    {
        let (items, names) = x::INodes::from_spec(spec)?;
        let opts = ONodes::from_spec(spec, &names)?;
        let ghost gi = items;
        let ghost go = opts;
        let p = Problem::new(items, opts);
        proof {
            let np = spec.primary@.len();
            let n = np + spec.secondary@.len();
            assert forall|i: int| 0 <= i < n + 2 implies #[trigger] p.dance_view().net.left[i]
                == init_left(np as int, n as int, i) && p.dance_view().net.right[i] == init_right(
                np as int,
                n as int,
                i,
            ) by {
                assert(gi.nodes@[i].left == init_left(np as int, n as int, i));
            }
            let os = color_options(x::item_names(spec@), np as int, spec@.opts)->Ok_0;
            assert forall|c: int| 1 <= c <= n implies column(
                p.dance_view().net,
                c,
                #[trigger] col_entries(n as int, os, c, os.len() as int, 0),
            ) by {
                let l = col_entries(n as int, os, c, os.len() as int, 0);
                assert(column(column_net(n as Count, hdrs(go.nodes@), ups(go.nodes@), downs(go.nodes@)), c, l));
                lemma_column_same(
                    column_net(n as Count, hdrs(go.nodes@), ups(go.nodes@), downs(go.nodes@)),
                    p.dance_view().net,
                    c,
                    l,
                );
            }
            let net = column_net(n as Count, hdrs(go.nodes@), ups(go.nodes@), downs(go.nodes@));
            lemma_same_options(net, p.dance_view().net);
            assert forall|i: int| 0 <= i < p.dance_view().net.ni() implies #[trigger] p.dance_view().net.left[i]
                < p.dance_view().net.ni() && p.dance_view().net.right[i] < p.dance_view().net.ni() by {
                assert(p.dance_view().net.left[i] == init_left(np as int, n as int, i));
                assert(p.dance_view().net.right[i] == init_right(np as int, n as int, i));
            }
            lemma_node_count_ge(n as int, os);
            assert(p.dance_view().net.sized());
            lemma_color_options_ok(x::item_names(spec@), np as int, spec@.opts);
            assert(colors_ok(os, np as int));
            if no_repeats(os) {
                let cols = choose|cols: Seq<Seq<int>>| #[trigger] cycles(net, n as int, cols);
                law_c_tracked(gi, go, np as Count, n as Count, os, cols);
            }
        }
        Ok(p)
    }
}

impl crate::Dance for Problem {
    closed spec fn dance_view(&self) -> LinksV {
        self.core@
    }

    fn links(&self) -> (r: &Links) {
        &self.core
    }

    fn updates(&self) -> (r: isize) {
        self.core.updates
    }

    fn set_updates(&mut self, v: isize) {
        self.core.updates = v;
    }

    fn cover(&mut self, i: Link) {
        self.core.cover_item(i);
    }

    fn commit(&mut self, p: Link, j: Link) {
        self.core.commit_entry(p, j);
    }

    fn uncover(&mut self, i: Link) {
        self.core.uncover_item(i);
    }

    fn uncommit(&mut self, p: Link, j: Link) {
        self.core.uncommit_entry(p, j);
    }

    fn hide_option(&mut self, p: Link) {
        self.core.hide_entry(p);
    }

    fn unhide(&mut self, p: Link) {
        self.core.unhide_entry(p);
    }

    fn branch_degree(&self, i: Link) -> (r: Data) {
        self.core.degree(i)
    }
}

impl crate::Solve for Problem {
    fn enter_level(&mut self, i: Link, l: Count, xl: Link) {
        self.core.enter(i, l, xl);
    }

    fn prepare_to_branch(&mut self, i: Link, l: Count, xl: Link) {
        self.core.prepare(i, l, xl);
    }

    fn try_item(&mut self, i: Link, l: Count, xl: Link) -> (r: bool) {
        self.core.try_entry(i, l, xl)
    }

    fn try_again(&mut self, i: Link, l: Count, xl: &mut Link) -> (r: bool) {
        self.core.retry(i, l, xl)
    }

    fn restore_item(&mut self, i: Link, l: Count, xl: Link) {
        self.core.restore(i, l, xl);
    }
}


impl crate::Opts for ONodes {
    closed spec fn hdrs_of(&self) -> Seq<Data> {
        hdrs(self.nodes@)
    }

    closed spec fn ups_of(&self) -> Seq<Link> {
        ups(self.nodes@)
    }

    closed spec fn downs_of(&self) -> Seq<Link> {
        downs(self.nodes@)
    }

    fn len(&self, i: Link) -> (r: Data) {
        self.nodes[i].hdr_info
    }

    fn top(&self, i: Link) -> (r: Data) {
        self.nodes[i].hdr_info
    }

    fn ulink(&self, i: Link) -> (r: Link) {
        self.nodes[i].up
    }

    fn dlink(&self, i: Link) -> (r: Link) {
        self.nodes[i].down
    }
}

impl crate::OptsC for ONodes {
    closed spec fn colors_of(&self) -> Seq<Data> {
        colors(self.nodes@)
    }

    fn color(&self, i: Link) -> (r: Data) {
        self.nodes[i].color
    }
}

impl crate::DanceC for Problem {
    fn purify(&mut self, p: Link) {
        crate::c::purify(p, &mut self.core);
    }

    fn unpurify(&mut self, p: Link) {
        crate::c::unpurify(p, &mut self.core);
    }
}

} // verus!
