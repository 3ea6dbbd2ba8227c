//! The operations of each kind of problem, chosen by the kind of its nodes:
//! colors pick the hiding and committing of algorithm C, multiplicities
//! the branching of algorithm M.

use vstd::prelude::*;

use crate::links::{lemma_col_facts, Links, LinksV};
use crate::{Count, Data, Link};

verus! {

impl Links {
    /// Cover item `i`.
    pub fn cover_item(&mut self, i: Link)
        requires
            old(self)@.wf(),
            old(self)@.net.is_hdr(i as int),
        ensures
            final(self)@ == old(self)@.cover(i as int),
            final(self)@.wf(),
            final(self)@.net.same_frame(old(self)@.net),
    {
        crate::x::cover(i, self);
    }

    /// Uncover item `i`.
    pub fn uncover_item(&mut self, i: Link)
        requires
            old(self)@.wf(),
            old(self)@.net.is_hdr(i as int),
        ensures
            final(self)@ == old(self)@.uncover(i as int),
            final(self)@.wf(),
            final(self)@.net.same_frame(old(self)@.net),
    {
        crate::x::uncover(i, self);
    }

    /// Commit entry `p` of item `j`.
    pub fn commit_entry(&mut self, p: Link, j: Link)
        requires
            old(self)@.wf(),
            old(self)@.net.is_opt(p as int),
            old(self)@.net.is_hdr(j as int),
        ensures
            final(self)@ == old(self)@.commit(p as int, j as int),
            final(self)@.wf(),
            final(self)@.net.same_frame(old(self)@.net),
    {
        if self.colored {
            crate::c::commit(p, j, self);
        } else {
            crate::x::commit(p, j, self);
        }
    }

    /// Uncommit entry `p` of item `j`.
    pub fn uncommit_entry(&mut self, p: Link, j: Link)
        requires
            old(self)@.wf(),
            old(self)@.net.is_opt(p as int),
            old(self)@.net.is_hdr(j as int),
        ensures
            final(self)@ == old(self)@.uncommit(p as int, j as int),
            final(self)@.wf(),
            final(self)@.net.same_frame(old(self)@.net),
    {
        if self.colored {
            crate::c::uncommit(p, j, self);
        } else {
            crate::x::uncommit(p, j, self);
        }
    }

    /// Hide the option of entry `p`.
    pub fn hide_entry(&mut self, p: Link)
        requires
            old(self)@.wf(),
            old(self)@.net.is_opt(p as int),
        ensures
            final(self)@ == old(self)@.hide_option(p as int),
            final(self)@.wf(),
            final(self)@.net.same_frame(old(self)@.net),
    {
        if self.colored {
            crate::c::hide_option(p, self);
        } else {
            crate::x::hide_option(p, self);
        }
    }

    /// Unhide the option of entry `p`.
    pub fn unhide_entry(&mut self, p: Link)
        requires
            old(self)@.wf(),
            old(self)@.net.is_opt(p as int),
        ensures
            final(self)@ == old(self)@.unhide(p as int),
            final(self)@.wf(),
            final(self)@.net.same_frame(old(self)@.net),
    {
        if self.colored {
            crate::c::unhide(p, self);
        } else {
            crate::x::unhide(p, self);
        }
    }

    /// The branching degree of item `i`.
    pub fn degree(&self, i: Link) -> (r: Data)
        requires
            self@.wf(),
            self@.net.is_hdr(i as int),
        ensures
            r == self@.degree(i as int),
    {
        if self.multi {
            crate::m::branch_degree(i, self)
        } else {
            crate::x::branch_degree(i, self)
        }
    }

    /// Enter level `l`.
    pub fn enter(&mut self, i: Link, l: Count, xl: Link)
        ensures
            final(self)@ == old(self)@.enter(),
    {
        if self.multi {
            crate::m::enter_level(self, i, l, xl);
        }
    }

    /// Prepare to branch on item `i` at level `l`.
    pub fn prepare(&mut self, i: Link, l: Count, xl: Link)
        requires
            old(self)@.wf(),
            old(self)@.net.is_hdr(i as int),
            old(self)@.net.multi ==> l < old(self)@.ft.len(),
        ensures
            final(self)@ == old(self)@.prepare(i as int, l as int, xl),
            final(self)@.wf(),
            final(self)@.net.same_frame(old(self)@.net),
            final(self)@.ft.len() == old(self)@.ft.len(),
    {
        if self.multi {
            crate::m::prepare_to_branch(self, i, l, xl);
        } else {
            crate::x::prepare_to_branch(self, i, l, xl);
        }
    }

    /// Try entry `xl` of item `i` at level `l`.
    pub fn try_entry(&mut self, i: Link, l: Count, xl: Link) -> (r: bool)
        requires
            old(self)@.wf(),
            old(self)@.net.is_hdr(i as int),
            old(self)@.net.is_col(xl as int),
            old(self)@.net.col_of(xl as int) == i,
        ensures
            r == old(self)@.try_ok(i as int, xl as int),
            final(self)@ == old(self)@.try_entry(i as int, xl as int),
            final(self)@.wf(),
            final(self)@.net.same_frame(old(self)@.net),
            final(self)@.ft.len() == old(self)@.ft.len(),
    {
        if self.multi {
            crate::m::try_item(self, i, l, xl)
        } else {
            crate::x::try_item(self, i, xl)
        }
    }

    /// Leave entry `xl` of item `i` at level `l` for the next one.
    pub fn retry(&mut self, i: Link, l: Count, xl: &mut Link) -> (r: bool)
        requires
            old(self)@.wf(),
            old(self)@.net.is_col(*old(xl) as int),
            *old(xl) > old(self)@.net.len ==> old(self)@.net.is_hdr(i as int) && old(
                self,
            )@.net.col_of(*old(xl) as int) == i,
        ensures
            ({
                let t = old(self)@.retry(i as int, l as int, *old(xl) as int);
                &&& final(self)@ == t.0
                &&& r == t.1
                &&& *final(xl) == t.2
            }),
            final(self)@.net.is_col(*final(xl) as int),
            final(self)@.wf(),
            final(self)@.net.same_frame(old(self)@.net),
            final(self)@.ft.len() == old(self)@.ft.len(),
    {
        if self.multi {
            crate::m::try_again(self, i, l, xl)
        } else if *xl > self.len {
            proof {
                crate::links::lemma_end_spacers(self@.net);
            }
            crate::x::try_again(self, i, l, xl)
        } else {
            false
        }
    }

    /// Restore item `i` at level `l`.
    pub fn restore(&mut self, i: Link, l: Count, xl: Link)
        requires
            old(self)@.wf(),
            old(self)@.net.is_hdr(i as int),
        ensures
            final(self)@ == old(self)@.restore(i as int, l as int),
            final(self)@.wf(),
            final(self)@.net.same_frame(old(self)@.net),
            final(self)@.ft.len() == old(self)@.ft.len(),
    {
        if self.multi {
            crate::m::restore_item(self, i, l, xl);
        } else {
            crate::x::restore_item(self, i);
        }
    }
}

} // verus!
