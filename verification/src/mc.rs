//! Algorithm M with colors: multiplicities on primary items and colors on
//! secondary items.

use vstd::prelude::*;

use crate::construct::{assemble, col_entries, column_net, lemma_column_same, node_count, options_colors, options_shape};
use crate::covering::column;
use crate::spec_text::{bound_items, check_names, color_options, Spec, SpecV};
use crate::links::{Links, LinksV, Net};
use crate::{c, m};
use crate::{Count, Dance, Data, Error, Link};

verus! {

/// An exact cover problem with multiplicities and colors.
pub struct Problem {
    core: Links,
}

impl Problem {
    /// The problem with item nodes `items` and colored option nodes `opts`.
    pub fn new(items: m::INodes, opts: c::ONodes) -> (r: Problem)
        ensures
            r.dance_view() == c::links_with(
                m::lefts(items.nodes@),
                m::rights(items.nodes@),
                m::slacks(items.nodes@),
                m::bounds(items.nodes@),
                opts.nodes@,
                items.primary,
                items.len,
                true,
            ),
    {
        let (left, right, slack, bound) = m::item_vecs(&items);
        let a = c::option_vecs(&opts);
        let core = assemble(left, right, slack, bound, a, items.primary, items.len, true, true);
        Problem { core }
    }

    /// The item nodes as they are now.
    pub fn items(&self) -> (r: m::INodes)
        requires
            self.dance_view().net.right.len() == self.dance_view().net.left.len(),
            self.dance_view().net.slack.len() == self.dance_view().net.left.len(),
            self.dance_view().net.bound.len() == self.dance_view().net.left.len(),
        ensures
            m::lefts(r.nodes@) == self.dance_view().net.left,
            m::rights(r.nodes@) == self.dance_view().net.right,
            m::slacks(r.nodes@) == self.dance_view().net.slack,
            m::bounds(r.nodes@) == self.dance_view().net.bound,
            r.primary == self.dance_view().net.primary,
            r.len == self.dance_view().net.len,
    {
        m::items_of(&self.core)
    }

    /// The colored option nodes as they are now.
    pub fn opts(&self) -> (r: c::ONodes)
        requires
            self.dance_view().net.up.len() == self.dance_view().net.hdr.len(),
            self.dance_view().net.down.len() == self.dance_view().net.hdr.len(),
            self.dance_view().net.color.len() == self.dance_view().net.hdr.len(),
        ensures
            c::hdrs(r.nodes@) == self.dance_view().net.hdr,
            c::ups(r.nodes@) == self.dance_view().net.up,
            c::downs(r.nodes@) == self.dance_view().net.down,
            c::colors(r.nodes@) == self.dance_view().net.color,
    {
        c::opts_of(&self.core)
    }
}

/// The error of reading a problem with multiplicities and colors from
/// `sp`: that of the first failing primary item, else of the names, else of
/// the colored options, else `TooLarge` when the nodes would be
/// `isize::MAX` or more.
pub open spec fn spec_error(sp: SpecV, n: int, e: Error) -> bool {
    match bound_items(sp.primary) {
        Err(e2) => e == e2,
        Ok(mi) => {
            let names = m::bound_names(mi, sp.secondary);
            match check_names(names) {
                Err(e2) => e == e2,
                Ok(_) => match color_options(names, sp.primary.len() as int, sp.opts) {
                    Err(e2) => e == e2,
                    Ok(os) => node_count(n, os) >= isize::MAX && e == Error::TooLarge,
                },
            }
        },
    }
}

impl Problem {
    /// The problem with multiplicities and colors of `spec`: the errors of
    /// [`m::INodes::from_spec`], then those of [`c::ONodes::from_spec`].
    pub fn from_spec(spec: &Spec) -> (r: Result<Problem, Error>)
        requires
            spec.primary@.len() + spec.secondary@.len() < isize::MAX,
        ensures
            ({
                let np = spec.primary@.len();
                let ns = spec.secondary@.len();
                let n = np + ns;
                match r {
                    Ok(p) => {
                        &&& bound_items(spec@.primary) matches Ok(mi)
                        &&& check_names(m::bound_names(mi, spec@.secondary)) == Ok::<(), Error>(())
                        &&& color_options(m::bound_names(mi, spec@.secondary), np as int, spec@.opts) matches Ok(os)
                        &&& node_count(n as int, os) < isize::MAX
                        &&& p.dance_view().net.primary == np
                        &&& p.dance_view().net.len == n
                        &&& p.dance_view().net.multi
                        &&& p.dance_view().net.colored
                        &&& p.dance_view().ft == Seq::<Link>::empty()
                        &&& p.dance_view().updates == 0
                        &&& p.dance_view().net.left.len() == n + 2
                        &&& forall|i: int|
                            0 <= i < n + 2 ==> {
                                let node = m::init_node(m::bound_pairs(mi), ns as int, i);
                                &&& #[trigger] p.dance_view().net.left[i] == node.left
                                &&& p.dance_view().net.right[i] == node.right
                                &&& p.dance_view().net.slack[i] == node.slack
                                &&& p.dance_view().net.bound[i] == node.bound
                            }
                        &&& options_shape(
                            n as Count,
                            os,
                            p.dance_view().net.hdr,
                            p.dance_view().net.up,
                            p.dance_view().net.down,
                        )
                        &&& options_colors(n as Count, os, p.dance_view().net.color)
                        &&& forall|c: int|
                            1 <= c <= n ==> column(
                                p.dance_view().net,
                                c,
                                #[trigger] col_entries(n as int, os, c, os.len() as int, 0),
                            )
                    },
                    Err(e) => spec_error(spec@, n as int, e),
                }
            }),
    {
        let (items, names) = m::INodes::from_spec(spec)?;
        let opts = c::ONodes::from_spec(spec, &names)?;
        let ghost gi = items;
        let ghost go = opts;
        let p = Problem::new(items, opts);
        proof {
            let np = spec.primary@.len();
            let ns = spec.secondary@.len();
            let mi = bound_items(spec@.primary)->Ok_0;
            let n = np + ns;
            let os = color_options(m::bound_names(mi, spec@.secondary), np as int, spec@.opts)->Ok_0;
            assert forall|c: int| 1 <= c <= n implies column(
                p.dance_view().net,
                c,
                #[trigger] col_entries(n as int, os, c, os.len() as int, 0),
            ) by {
                let l = col_entries(n as int, os, c, os.len() as int, 0);
                assert(column(column_net(n as Count, c::hdrs(go.nodes@), c::ups(go.nodes@), c::downs(go.nodes@)), c, l));
                lemma_column_same(
                    column_net(n as Count, c::hdrs(go.nodes@), c::ups(go.nodes@), c::downs(go.nodes@)),
                    p.dance_view().net,
                    c,
                    l,
                );
            }
            assert forall|i: int| 0 <= i < np + ns + 2 implies {
                let node = m::init_node(m::bound_pairs(mi), ns as int, i);
                &&& #[trigger] p.dance_view().net.left[i] == node.left
                &&& p.dance_view().net.right[i] == node.right
                &&& p.dance_view().net.slack[i] == node.slack
                &&& p.dance_view().net.bound[i] == node.bound
            } by {
                assert(gi.nodes@[i] == m::init_node(m::bound_pairs(mi), ns as int, i));
            }
        }
        Ok(p)
    }
}

impl crate::Dance for Problem {
    closed spec fn dance_view(&self) -> LinksV {
        self.core@
    }

    fn links(&self) -> (r: &Links) {
        &self.core
    }

    fn updates(&self) -> (r: isize) {
        self.core.updates
    }

    fn set_updates(&mut self, v: isize) {
        self.core.updates = v;
    }

    fn cover(&mut self, i: Link) {
        self.core.cover_item(i);
    }

    fn commit(&mut self, p: Link, j: Link) {
        self.core.commit_entry(p, j);
    }

    fn uncover(&mut self, i: Link) {
        self.core.uncover_item(i);
    }

    fn uncommit(&mut self, p: Link, j: Link) {
        self.core.uncommit_entry(p, j);
    }

    fn hide_option(&mut self, p: Link) {
        self.core.hide_entry(p);
    }

    fn unhide(&mut self, p: Link) {
        self.core.unhide_entry(p);
    }

    fn branch_degree(&self, i: Link) -> (r: Data) {
        self.core.degree(i)
    }
}

impl crate::Solve for Problem {
    fn enter_level(&mut self, i: Link, l: Count, xl: Link) {
        self.core.enter(i, l, xl);
    }

    fn prepare_to_branch(&mut self, i: Link, l: Count, xl: Link) {
        self.core.prepare(i, l, xl);
    }

    fn try_item(&mut self, i: Link, l: Count, xl: Link) -> (r: bool) {
        self.core.try_entry(i, l, xl)
    }

    fn try_again(&mut self, i: Link, l: Count, xl: &mut Link) -> (r: bool) {
        self.core.retry(i, l, xl)
    }

    fn restore_item(&mut self, i: Link, l: Count, xl: Link) {
        self.core.restore(i, l, xl);
    }
}


impl crate::DanceC for Problem {
    fn purify(&mut self, p: Link) {
        crate::c::purify(p, &mut self.core);
    }

    fn unpurify(&mut self, p: Link) {
        crate::c::unpurify(p, &mut self.core);
    }
}

impl crate::DanceM for Problem {
    fn tweak(&mut self, x: Link, p: Link) {
        crate::m::tweak(x, p, &mut self.core);
    }

    fn untweak(&mut self, l: Count, unblock: bool) {
        crate::m::untweak(l, unblock, &mut self.core);
    }

    fn ft(&self) -> (r: &Vec<Link>) {
        &self.core.ft
    }
}

impl crate::SolveM for Problem {
}

} // verus!
