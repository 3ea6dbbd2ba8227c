//! The node arrays that all problem kinds share, their well-formedness,
//! and the elementary operations of dancing links with their exact effect.

use vstd::prelude::*;

use crate::{Count, Data, Link};

verus! {

/// The arrays of a [`Links`] as sequences, with its sizes and kind.
pub struct Net {
    pub left: Seq<Link>,
    pub right: Seq<Link>,
    pub slack: Seq<Data>,
    pub bound: Seq<Data>,
    pub hdr: Seq<Data>,
    pub up: Seq<Link>,
    pub down: Seq<Link>,
    pub color: Seq<Data>,
    pub primary: Count,
    pub len: Count,
    pub colored: bool,
    pub multi: bool,
}

/// The mathematical value of a [`Links`]: the node arrays, the stack of
/// first tweaks and the update counter.
pub struct LinksV {
    pub net: Net,
    pub ft: Seq<Link>,
    pub updates: isize,
}

/// The nodes of a problem. Item nodes `0..=len+1` carry the horizontal
/// links (`left`, `right`) and, for multiplicities, `slack` and `bound`.
/// Option nodes carry `hdr` (the length of a column for the headers
/// `1..=len`, the item of a node, or minus the option number for a
/// spacer), the vertical links `up` and `down`, and a `color`.
pub struct Links {
    pub left: Vec<Link>,
    pub right: Vec<Link>,
    pub slack: Vec<Data>,
    pub bound: Vec<Data>,
    pub hdr: Vec<Data>,
    pub up: Vec<Link>,
    pub down: Vec<Link>,
    pub color: Vec<Data>,
    pub primary: Count,
    pub len: Count,
    pub ft: Vec<Link>,
    pub updates: isize,
    pub colored: bool,
    pub multi: bool,
}

impl View for Links {
    type V = LinksV;

    open spec fn view(&self) -> LinksV {
        LinksV {
            net: Net {
                left: self.left@,
                right: self.right@,
                slack: self.slack@,
                bound: self.bound@,
                hdr: self.hdr@,
                up: self.up@,
                down: self.down@,
                color: self.color@,
                primary: self.primary,
                len: self.len,
                colored: self.colored,
                multi: self.multi,
            },
            ft: self.ft@,
            updates: self.updates,
        }
    }
}

impl Net {
    /// Number of option nodes (headers, option entries and spacers).
    pub open spec fn n(self) -> int {
        self.hdr.len() as int
    }

    /// Number of item nodes.
    pub open spec fn ni(self) -> int {
        self.len + 2
    }

    /// `x` is an item header: `1..=len`.
    pub open spec fn is_hdr(self, x: int) -> bool {
        1 <= x <= self.len
    }

    /// `x` is the node of an item in an option.
    pub open spec fn is_opt(self, x: int) -> bool {
        self.len + 2 <= x < self.n() && self.hdr[x] > 0
    }

    /// `x` is a spacer between options.
    pub open spec fn is_spacer(self, x: int) -> bool {
        self.len + 1 <= x < self.n() && self.hdr[x] <= 0
    }

    /// `x` lies in a column: a header or an option entry.
    pub open spec fn is_col(self, x: int) -> bool {
        self.is_hdr(x) || self.is_opt(x)
    }

    /// The column (item) of a column node.
    pub open spec fn col_of(self, x: int) -> int {
        if self.is_hdr(x) {
            x
        } else {
            self.hdr[x] as int
        }
    }

    /// Every entry of `[f, s)` belongs to an option and `f - 1` is a spacer.
    pub open spec fn block_before(self, f: int, s: int) -> bool {
        &&& self.len + 2 <= f <= s
        &&& self.hdr[f - 1] <= 0
        &&& forall|y: int| f <= y < s ==> #[trigger] self.hdr[y] > 0
    }

    /// Every entry of `(s, l]` belongs to an option and `l + 1` is a spacer.
    pub open spec fn block_after(self, s: int, l: int) -> bool {
        &&& s <= l < self.n() - 1
        &&& self.hdr[l + 1] <= 0
        &&& forall|y: int| s < y <= l ==> #[trigger] self.hdr[y] > 0
    }

    /// A spacer at `s` is preceded by a whole option block.
    pub open spec fn before_ok(self, s: int) -> bool {
        self.hdr[s] <= 0 ==> self.block_before(self.up[s] as int, s)
    }

    /// A spacer at `s` is followed by a whole option block.
    pub open spec fn after_ok(self, s: int) -> bool {
        self.hdr[s] <= 0 ==> self.block_after(s, self.down[s] as int)
    }

    /// The layout of options: spacers frame each option, a spacer's `up`
    /// is the first entry of the option before it and its `down` the
    /// last entry of the option after it.
    #[verifier::opaque]
    pub open spec fn layout(self) -> bool {
        &&& self.ni() <= self.n()
        &&& self.hdr[self.len + 1] <= 0
        &&& self.hdr[self.n() - 1] <= 0
        &&& forall|x: int| #[trigger] self.is_opt(x) ==> self.hdr[x] <= self.len
        &&& forall|x: int| self.len + 1 < x < self.n() ==> #[trigger] self.hdr[x] != 0
        &&& forall|s: int|
            self.len + 1 < s < self.n() && #[trigger] self.hdr[s] <= 0 ==> self.block_before(
                self.up[s] as int,
                s,
            )
        &&& forall|s: int|
            self.len + 1 <= s < self.n() - 1 && #[trigger] self.hdr[s] <= 0
                ==> self.block_after(s, self.down[s] as int)
    }

    /// Vertical links of a column node stay in its column.
    #[verifier::opaque]
    pub open spec fn closed(self) -> bool {
        forall|x: int|
            #[trigger] self.is_col(x) ==> {
                &&& self.is_col(self.up[x] as int)
                &&& self.is_col(self.down[x] as int)
                &&& self.col_of(self.up[x] as int) == self.col_of(x)
                &&& self.col_of(self.down[x] as int) == self.col_of(x)
            }
    }

    /// Array sizes and the range of every horizontal link.
    pub open spec fn sized(self) -> bool {
        &&& self.left.len() == self.ni()
        &&& self.right.len() == self.ni()
        &&& self.slack.len() == self.ni()
        &&& self.bound.len() == self.ni()
        &&& self.up.len() == self.n()
        &&& self.down.len() == self.n()
        &&& self.color.len() == self.n()
        &&& self.primary <= self.len
        &&& self.n() < isize::MAX
        &&& forall|i: int|
            0 <= i < self.ni() ==> #[trigger] self.left[i] < self.ni() && self.right[i]
                < self.ni()
    }

    /// The well-formedness that every operation of the solver keeps.
    pub open spec fn wf(self) -> bool {
        &&& self.sized()
        &&& self.layout()
        &&& self.closed()
    }

    /// The parts that no dancing operation changes: sizes, the kind of
    /// every node and the links of spacers.
    pub open spec fn same_frame(self, other: Net) -> bool {
        &&& self.len == other.len
        &&& self.primary == other.primary
        &&& self.colored == other.colored
        &&& self.multi == other.multi
        &&& self.hdr.len() == other.hdr.len()
        &&& self.left.len() == other.left.len()
        &&& self.right.len() == other.right.len()
        &&& self.slack.len() == other.slack.len()
        &&& self.bound.len() == other.bound.len()
        &&& self.up.len() == other.up.len()
        &&& self.down.len() == other.down.len()
        &&& self.color.len() == other.color.len()
        &&& forall|x: int| self.len + 1 <= x < self.n() ==> #[trigger] self.hdr[x] == other.hdr[x]
        &&& forall|x: int|
            #[trigger] self.is_spacer(x) ==> self.up[x] == other.up[x] && self.down[x]
                == other.down[x]
    }

    /// Set `down[u] = a`, `up[d] = b` and the header `hdr[x] = h`.
    pub open spec fn splice(self, u: int, a: int, d: int, b: int, x: int, h: Data) -> Net {
        Net {
            down: self.down.update(u, a as Link),
            up: self.up.update(d, b as Link),
            hdr: self.hdr.update(x, h),
            ..self
        }
    }

    /// Remove option entry `q` from its column (the inner step of hiding).
    pub open spec fn unlink(self, q: int) -> Net {
        let u = self.up[q] as int;
        let d = self.down[q] as int;
        let x = self.hdr[q] as int;
        self.splice(u, d, d, u, x, self.hdr[x].wrapping_sub(1))
    }

    /// Put option entry `q` back between its remembered neighbours (the
    /// inner step of unhiding).
    pub open spec fn relink(self, q: int) -> Net {
        let u = self.up[q] as int;
        let d = self.down[q] as int;
        let x = self.hdr[q] as int;
        self.splice(u, q, d, q, x, self.hdr[x].wrapping_add(1))
    }


    /// The same nodes with `up[x] = y`.
    pub open spec fn set_up(self, x: int, y: int) -> Net {
        Net { up: self.up.update(x, y as Link), ..self }
    }

    /// The same nodes with `down[x] = y`.
    pub open spec fn set_down(self, x: int, y: int) -> Net {
        Net { down: self.down.update(x, y as Link), ..self }
    }

    /// The same nodes with `hdr[x] = h`.
    pub open spec fn set_hdr(self, x: int, h: Data) -> Net {
        Net { hdr: self.hdr.update(x, h), ..self }
    }

    /// The same nodes with `bound[i] = v`.
    pub open spec fn set_bound(self, i: int, v: Data) -> Net {
        Net { bound: self.bound.update(i, v), ..self }
    }

    /// Take item `i` out of its horizontal list.
    pub open spec fn unlink_item(self, i: int) -> Net {
        let l = self.left[i] as int;
        let r = self.right[i] as int;
        Net { right: self.right.update(l, r as Link), left: self.left.update(r, l as Link), ..self }
    }

    /// Put item `i` back between its remembered neighbours.
    pub open spec fn relink_item(self, i: int) -> Net {
        let l = self.left[i] as int;
        let r = self.right[i] as int;
        Net { right: self.right.update(l, i as Link), left: self.left.update(r, i as Link), ..self }
    }
}

/// The saturating difference of two `isize` values, as a number.
pub open spec fn sat_sub(a: int, b: int) -> int {
    if a - b > isize::MAX {
        isize::MAX as int
    } else if a - b < isize::MIN {
        isize::MIN as int
    } else {
        a - b
    }
}

impl LinksV {
    /// The well-formedness of the node arrays.
    pub open spec fn wf(self) -> bool {
        self.net.wf()
    }

    /// Remove entry `q` from its column, counting one update.
    pub open spec fn unlink(self, q: int) -> LinksV {
        LinksV { net: self.net.unlink(q), updates: self.updates.wrapping_add(1), ..self }
    }

    /// Put entry `q` back into its column.
    pub open spec fn relink(self, q: int) -> LinksV {
        LinksV { net: self.net.relink(q), ..self }
    }

    /// Entry `q` takes part in hiding: always without colors, and with
    /// colors when it has not been purified.
    pub open spec fn active(self, q: int, colored: bool) -> bool {
        !colored || self.net.color[q] >= 0
    }

    /// Hiding from entry `q` on, until the walk around the option of `p`
    /// comes back to `p`.
    pub open spec fn hide_from(self, p: int, q: int, n: int, colored: bool) -> LinksV
        decreases (if q > p {
            2 * n - q
        } else {
            p - q
        }),
    {
        if q == p || q < 0 || q >= n || p >= n {
            self
        } else if self.net.hdr[q] <= 0 {
            if q > p && self.net.up[q] <= p {
                self.hide_from(p, self.net.up[q] as int, n, colored)
            } else {
                self
            }
        } else {
            let next = if self.active(q, colored) {
                self.unlink(q)
            } else {
                self
            };
            next.hide_from(p, q + 1, n, colored)
        }
    }

    /// The state after hiding option entry `p`: every other (active)
    /// entry of its option leaves its column.
    pub open spec fn hide_with(self, p: int, colored: bool) -> LinksV {
        self.hide_from(p, p + 1, self.net.n(), colored)
    }

    /// Unhiding from entry `q` on, walking backwards around the option of
    /// `p` until it comes back to `p`.
    pub open spec fn unhide_from(self, p: int, q: int, n: int, colored: bool) -> LinksV
        decreases (if q < p {
            n + q
        } else {
            q - p
        }),
    {
        if q == p || q < 0 || q >= n || p >= n {
            self
        } else if self.net.hdr[q] <= 0 {
            if q < p && p <= self.net.down[q] < n {
                self.unhide_from(p, self.net.down[q] as int, n, colored)
            } else {
                self
            }
        } else {
            let next = if self.active(q, colored) {
                self.relink(q)
            } else {
                self
            };
            if q == 0 {
                next
            } else {
                next.unhide_from(p, q - 1, n, colored)
            }
        }
    }

    /// The state after unhiding option entry `p`.
    pub open spec fn unhide_with(self, p: int, colored: bool) -> LinksV {
        self.unhide_from(p, p - 1, self.net.n(), colored)
    }

    /// Hiding with the variant of this problem.
    pub open spec fn hide_option(self, p: int) -> LinksV {
        self.hide_with(p, self.net.colored)
    }

    /// Unhiding with the variant of this problem.
    pub open spec fn unhide(self, p: int) -> LinksV {
        self.unhide_with(p, self.net.colored)
    }

    /// Covering from entry `p` of column `i` on: hide the option of every
    /// entry met walking down the column, for at most `fuel` entries.
    pub open spec fn cover_walk(self, i: int, p: int, fuel: nat) -> LinksV
        decreases fuel,
    {
        if fuel == 0 || p == i || !self.net.is_opt(p) {
            self
        } else {
            let t = self.hide_option(p);
            t.cover_walk(i, t.net.down[p] as int, (fuel - 1) as nat)
        }
    }

    /// The state after covering item `i`: the options of its column are
    /// hidden (walking down from the header, at most one step per option
    /// node, which a consistent column never exhausts), then `i` leaves
    /// the item list.
    pub open spec fn cover(self, i: int) -> LinksV {
        let t = self.cover_walk(i, self.net.down[i] as int, self.net.n() as nat);
        LinksV { net: t.net.unlink_item(i), updates: t.updates.wrapping_add(1), ..t }
    }

    /// Uncovering from entry `p` of column `i` on, walking up.
    pub open spec fn uncover_walk(self, i: int, p: int, fuel: nat) -> LinksV
        decreases fuel,
    {
        if fuel == 0 || p == i || !self.net.is_opt(p) {
            self
        } else {
            let t = self.unhide(p);
            t.uncover_walk(i, t.net.up[p] as int, (fuel - 1) as nat)
        }
    }

    /// The state after uncovering item `i`: `i` returns to the item list,
    /// then the options of its column are unhidden walking up.
    pub open spec fn uncover(self, i: int) -> LinksV {
        let t = LinksV { net: self.net.relink_item(i), ..self };
        t.uncover_walk(i, t.net.up[i] as int, self.net.n() as nat)
    }

    /// The same state with entry `q` of color `v`.
    pub open spec fn set_color(self, q: int, v: Data) -> LinksV {
        LinksV { net: Net { color: self.net.color.update(q, v), ..self.net }, ..self }
    }

    /// Purifying from entry `q` of column `i` on: entries of color `c`
    /// are marked as purified (color `-1`), the options of the others are
    /// hidden.
    pub open spec fn purify_walk(self, c: Data, i: int, q: int, fuel: nat) -> LinksV
        decreases fuel,
    {
        if fuel == 0 || q == i || !self.net.is_opt(q) {
            self
        } else {
            let t = if self.net.color[q] == c {
                self.set_color(q, -1isize)
            } else {
                self.hide_with(q, true)
            };
            t.purify_walk(c, i, t.net.down[q] as int, (fuel - 1) as nat)
        }
    }

    /// The state after purifying entry `p`: in the column of `p`, the
    /// entries of the color of `p` are marked, the options of the others
    /// hidden.
    pub open spec fn purify(self, p: int) -> LinksV {
        let i = self.net.hdr[p] as int;
        self.purify_walk(self.net.color[p], i, self.net.down[i] as int, self.net.n() as nat)
    }

    /// Unpurifying from entry `q` of column `i` on, walking up.
    pub open spec fn unpurify_walk(self, c: Data, i: int, q: int, fuel: nat) -> LinksV
        decreases fuel,
    {
        if fuel == 0 || q == i || !self.net.is_opt(q) {
            self
        } else {
            let t = if self.net.color[q] < 0 {
                self.set_color(q, c)
            } else {
                self.unhide_with(q, true)
            };
            t.unpurify_walk(c, i, t.net.up[q] as int, (fuel - 1) as nat)
        }
    }

    /// The state after unpurifying entry `p`.
    pub open spec fn unpurify(self, p: int) -> LinksV {
        let i = self.net.hdr[p] as int;
        self.unpurify_walk(self.net.color[p], i, self.net.up[i] as int, self.net.n() as nat)
    }

    /// Committing entry `p` of item `j`: without colors, cover `j`; with
    /// colors, cover `j` when `p` has no color and purify `p` when it has
    /// one.
    pub open spec fn commit_with(self, p: int, j: int, colored: bool) -> LinksV {
        if !colored {
            self.cover(j)
        } else {
            let t = if self.net.color[p] == 0 {
                self.cover(j)
            } else {
                self
            };
            if t.net.color[p] > 0 {
                t.purify(p)
            } else {
                t
            }
        }
    }

    /// Undoing `commit_with`.
    pub open spec fn uncommit_with(self, p: int, j: int, colored: bool) -> LinksV {
        if !colored {
            self.uncover(j)
        } else {
            let t = if self.net.color[p] == 0 {
                self.uncover(j)
            } else {
                self
            };
            if t.net.color[p] > 0 {
                t.unpurify(p)
            } else {
                t
            }
        }
    }

    /// Committing with the variant of this problem.
    pub open spec fn commit(self, p: int, j: int) -> LinksV {
        self.commit_with(p, j, self.net.colored)
    }

    /// Uncommitting with the variant of this problem.
    pub open spec fn uncommit(self, p: int, j: int) -> LinksV {
        self.uncommit_with(p, j, self.net.colored)
    }

    /// Committing from entry `q` on, around the option of `x`, until the
    /// walk comes back to `x`.
    pub open spec fn commit_from(self, x: int, q: int, n: int) -> LinksV
        decreases (if q > x {
            2 * n - q
        } else {
            x - q
        }),
    {
        if q == x || q < 0 || q >= n || x >= n {
            self
        } else if self.net.hdr[q] <= 0 {
            if q > x && self.net.up[q] <= x {
                self.commit_from(x, self.net.up[q] as int, n)
            } else {
                self
            }
        } else {
            self.commit(q, self.net.hdr[q] as int).commit_from(x, q + 1, n)
        }
    }

    /// Uncommitting from entry `q` on, backwards around the option of `x`.
    pub open spec fn uncommit_from(self, x: int, q: int, n: int) -> LinksV
        decreases (if q < x {
            n + q
        } else {
            q - x
        }),
    {
        if q == x || q < 0 || q >= n || x >= n {
            self
        } else if self.net.hdr[q] <= 0 {
            if q < x && x <= self.net.down[q] < n {
                self.uncommit_from(x, self.net.down[q] as int, n)
            } else {
                self
            }
        } else {
            let t = self.uncommit(q, self.net.hdr[q] as int);
            if q == 0 {
                t
            } else {
                t.uncommit_from(x, q - 1, n)
            }
        }
    }

    /// The state after trying option entry `x`: every other item of its
    /// option is committed.
    pub open spec fn commit_option(self, x: int) -> LinksV {
        self.commit_from(x, x + 1, self.net.n())
    }

    /// The state after undoing `commit_option(x)`.
    pub open spec fn uncommit_option(self, x: int) -> LinksV {
        self.uncommit_from(x, x - 1, self.net.n())
    }

    /// The same state with new nodes.
    pub open spec fn with_net(self, net: Net) -> LinksV {
        LinksV { net: net, ..self }
    }

    /// Tweak entry `x` of column `p` away: hide its option when `p` still
    /// has to be chosen, then unlink `x` from the top of the column.
    pub open spec fn tweak(self, x: int, p: int) -> LinksV {
        let t = if self.net.bound[p] != 0 {
            self.hide_option(x)
        } else {
            self
        };
        let d = t.net.down[x] as int;
        t.with_net(t.net.set_down(p, d).set_up(d, p).set_hdr(p, t.net.hdr[p].wrapping_sub(1)))
    }

    /// The walk of `untweak`: from entry `x`, behind `y`, down to `z`,
    /// restoring up links (and unhiding when `unblock`), for at most
    /// `fuel` entries. Returns the state, the last entry and the count.
    pub open spec fn untweak_walk(
        self,
        p: int,
        y: int,
        x: int,
        z: int,
        unblock: bool,
        fuel: nat,
    ) -> (LinksV, int, int)
        decreases fuel,
    {
        if fuel == 0 || x == z || !self.net.is_col(x) {
            (self, y, 0)
        } else {
            let t1 = self.with_net(self.net.set_up(x, y));
            let t2 = if unblock && x != p {
                t1.unhide(x)
            } else {
                t1
            };
            let r = t2.untweak_walk(p, x, t2.net.down[x] as int, z, unblock, (fuel - 1) as nat);
            (r.0, r.1, r.2 + 1)
        }
    }

    /// The state after `untweak(l, unblock)`: the entries tweaked since
    /// level `l` return to the column, and the item is uncovered when it
    /// was blocked.
    pub open spec fn untweak(self, l: int, unblock: bool) -> LinksV {
        let ftl = self.ft[l] as int;
        let p = if ftl <= self.net.len {
            ftl
        } else {
            self.net.hdr[ftl] as int
        };
        let z = self.net.down[p] as int;
        let t = self.with_net(self.net.set_down(p, ftl));
        let r = t.untweak_walk(p, p, ftl, z, unblock, self.net.n() as nat);
        let t2 = r.0;
        let t3 = t2.with_net(
            t2.net.set_up(z, r.1).set_hdr(p, t2.net.hdr[p].wrapping_add(r.2 as isize)),
        );
        if !unblock {
            t3.uncover(p)
        } else {
            t3
        }
    }

    /// The entries that item `i` can still take: `bound - slack`.
    pub open spec fn m_need(self, i: int) -> Data {
        self.net.bound[i].wrapping_sub(self.net.slack[i])
    }

    /// One entry of a tried option, with multiplicities: a primary item
    /// loses one from its bound and is covered at zero; a secondary item
    /// is committed.
    pub open spec fn m_commit_step(self, q: int) -> LinksV {
        let j = self.net.hdr[q] as int;
        if j <= self.net.primary {
            let t = self.with_net(self.net.set_bound(j, self.net.bound[j].wrapping_sub(1)));
            if t.net.bound[j] == 0 {
                t.cover(j)
            } else {
                t
            }
        } else {
            self.commit(q, j)
        }
    }

    /// Undoing one `m_commit_step`.
    pub open spec fn m_uncommit_step(self, q: int) -> LinksV {
        let j = self.net.hdr[q] as int;
        if j <= self.net.primary {
            let t = self.with_net(self.net.set_bound(j, self.net.bound[j].wrapping_add(1)));
            if t.net.bound[j] == 1 {
                t.uncover(j)
            } else {
                t
            }
        } else {
            self.uncommit(q, j)
        }
    }

    /// `m_commit_step` from entry `q` on, around the option of `x`.
    pub open spec fn m_commit_from(self, x: int, q: int, n: int) -> LinksV
        decreases (if q > x {
            2 * n - q
        } else {
            x - q
        }),
    {
        if q == x || q < 0 || q >= n || x >= n {
            self
        } else if self.net.hdr[q] <= 0 {
            if q > x && self.net.up[q] <= x {
                self.m_commit_from(x, self.net.up[q] as int, n)
            } else {
                self
            }
        } else {
            self.m_commit_step(q).m_commit_from(x, q + 1, n)
        }
    }

    /// `m_uncommit_step` from entry `q` on, backwards around the option of
    /// `x`.
    pub open spec fn m_uncommit_from(self, x: int, q: int, n: int) -> LinksV
        decreases (if q < x {
            n + q
        } else {
            q - x
        }),
    {
        if q == x || q < 0 || q >= n || x >= n {
            self
        } else if self.net.hdr[q] <= 0 {
            if q < x && x <= self.net.down[q] < n {
                self.m_uncommit_from(x, self.net.down[q] as int, n)
            } else {
                self
            }
        } else {
            let t = self.m_uncommit_step(q);
            if q == 0 {
                t
            } else {
                t.m_uncommit_from(x, q - 1, n)
            }
        }
    }

    /// Before branching on item `i` at level `l` with first entry `xl`.
    pub open spec fn m_prepare(self, i: int, l: int, xl: Link) -> LinksV {
        let t = self.with_net(self.net.set_bound(i, self.net.bound[i].wrapping_sub(1)));
        if t.net.bound[i] == 0 {
            let t2 = t.cover(i);
            if t2.net.slack[i] != 0 {
                LinksV { ft: t2.ft.update(l, xl), ..t2 }
            } else {
                t2
            }
        } else {
            LinksV { ft: t.ft.update(l, xl), ..t }
        }
    }

    /// Whether trying entry `xl` of item `i` succeeds, with multiplicities.
    pub open spec fn m_try_ok(self, i: int, xl: int) -> bool {
        if self.net.slack[i] == 0 && self.net.bound[i] == 0 {
            xl != i
        } else {
            !(self.net.hdr[i] <= self.m_need(i))
        }
    }

    /// The state after trying entry `xl` of item `i`, with multiplicities.
    pub open spec fn m_try(self, i: int, xl: int) -> LinksV {
        if !self.m_try_ok(i, xl) {
            self
        } else {
            let t = if self.net.slack[i] == 0 && self.net.bound[i] == 0 {
                self
            } else if xl != i {
                self.tweak(xl, i)
            } else if self.net.bound[i] != 0 {
                self.with_net(self.net.unlink_item(i))
            } else {
                self
            };
            if xl != i {
                t.m_commit_from(xl, xl + 1, self.net.n())
            } else {
                t
            }
        }
    }

    /// The state after restoring item `i` at level `l`, with multiplicities
    /// (a level whose first tweak is not a column node is left alone; the
    /// search never produces one).
    pub open spec fn m_restore(self, i: int, l: int) -> LinksV {
        let t = if self.net.bound[i] == 0 && self.net.slack[i] == 0 {
            self.uncover(i)
        } else if 0 <= l < self.ft.len() && self.net.is_col(self.ft[l] as int) {
            self.untweak(l, self.net.bound[i] != 0)
        } else {
            self
        };
        t.with_net(t.net.set_bound(i, t.net.bound[i].wrapping_add(1)))
    }

    /// The branching degree of item `i` for the kind of this problem.
    pub open spec fn degree(self, i: int) -> int {
        if self.net.multi {
            sat_sub(
                self.net.hdr[i].wrapping_add(1) as int,
                sat_sub(self.net.bound[i] as int, self.net.slack[i] as int),
            )
        } else {
            self.net.hdr[i] as int
        }
    }

    /// Entering a level, for the kind of this problem.
    pub open spec fn enter(self) -> LinksV {
        if self.net.multi {
            LinksV { ft: self.ft.push(0), ..self }
        } else {
            self
        }
    }

    /// Preparing to branch on item `i`, for the kind of this problem.
    pub open spec fn prepare(self, i: int, l: int, xl: Link) -> LinksV {
        if self.net.multi {
            self.m_prepare(i, l, xl)
        } else {
            self.cover(i)
        }
    }

    /// Whether trying entry `xl` of item `i` succeeds, for the kind of this
    /// problem.
    pub open spec fn try_ok(self, i: int, xl: int) -> bool {
        if self.net.multi {
            self.m_try_ok(i, xl)
        } else {
            xl != i
        }
    }

    /// The state after trying entry `xl` of item `i`.
    pub open spec fn try_entry(self, i: int, xl: int) -> LinksV {
        if self.net.multi {
            self.m_try(i, xl)
        } else if xl != i {
            self.commit_option(xl)
        } else {
            self
        }
    }

    /// The state after restoring item `i` at level `l`.
    pub open spec fn restore(self, i: int, l: int) -> LinksV {
        if self.net.multi {
            self.m_restore(i, l)
        } else {
            self.uncover(i)
        }
    }

    /// Leaving entry `xl` of item `i` at level `l` for the next one: the
    /// state, whether an entry is being tried, and the entry reached.
    pub open spec fn retry(self, i: int, l: int, xl: int) -> (LinksV, bool, int) {
        if self.net.multi {
            if xl > self.net.len {
                let t = self.m_uncommit_from(xl, xl - 1, self.net.n());
                let nx = t.net.down[xl] as int;
                let ok = t.m_try_ok(i, nx);
                (
                    if ok {
                        t.m_try(i, nx)
                    } else {
                        t.m_restore(i, l)
                    },
                    ok,
                    nx,
                )
            } else {
                (self.with_net(self.net.relink_item(xl)).m_restore(xl, l), false, xl)
            }
        } else {
            if xl > self.net.len {
                let t = self.uncommit_option(xl);
                let nx = t.net.down[xl] as int;
                let ok = nx != i;
                (
                    if ok {
                        t.commit_option(nx)
                    } else {
                        t.uncover(i)
                    },
                    ok,
                    nx,
                )
            } else {
                (self, false, xl)
            }
        }
    }
}

/// What the well-formedness says of one column node.
pub proof fn lemma_col_facts(s: Net, x: int)
    requires
        s.wf(),
        s.is_col(x),
    ensures
        s.is_col(s.up[x] as int),
        s.is_col(s.down[x] as int),
        s.col_of(s.up[x] as int) == s.col_of(x),
        s.col_of(s.down[x] as int) == s.col_of(x),
        s.is_opt(x) ==> 1 <= s.hdr[x] <= s.len && x < s.n() - 1,
        0 <= x < s.n(),
{
    reveal(Net::layout);
    reveal(Net::closed);
    if s.is_opt(x) && x == s.n() - 1 {
        assert(s.hdr[s.n() - 1] <= 0);
    }
}

/// What the well-formedness says of one spacer.
pub proof fn lemma_spacer_facts(s: Net, x: int)
    requires
        s.wf(),
        s.is_spacer(x),
    ensures
        x > s.len + 1 ==> s.block_before(s.up[x] as int, x),
        x < s.n() - 1 ==> s.block_after(x, s.down[x] as int),
        x > s.len + 1 ==> s.hdr[x] < 0,
        s.hdr[s.n() - 1] <= 0,
        s.hdr[s.len + 1] <= 0,
{
    reveal(Net::layout);
}

/// The last node is a spacer, and so is node `len + 1`.
pub proof fn lemma_end_spacers(s: Net)
    requires
        s.wf(),
    ensures
        s.hdr[s.n() - 1] <= 0,
        s.hdr[s.len + 1] <= 0,
        s.ni() <= s.n(),
{
    reveal(Net::layout);
}

/// Two states with the same frame agree on which nodes are column nodes
/// and on their columns.
pub proof fn lemma_frame_cols(s: Net, t: Net, x: int)
    requires
        t.same_frame(s),
    ensures
        t.is_col(x) == s.is_col(x),
        t.is_opt(x) == s.is_opt(x),
        t.is_spacer(x) == s.is_spacer(x),
        t.is_col(x) ==> t.col_of(x) == s.col_of(x),
{
    if t.len + 1 <= x < t.n() {
        assert(t.hdr[x] == s.hdr[x]);
    }
}

/// A splice of column nodes that keeps every link in its column keeps the
/// layout.
#[verifier::rlimit(30)]
proof fn lemma_splice_frame(s: Net, u: int, a: int, d: int, b: int, x: int, h: Data)
    requires
        s.wf(),
        s.is_col(u),
        s.is_col(a),
        s.is_col(d),
        s.is_col(b),
        s.is_hdr(x),
    ensures
        s.splice(u, a, d, b, x, h).same_frame(s),
        s.splice(u, a, d, b, x, h).sized(),
        s.splice(u, a, d, b, x, h).layout(),
{
    reveal(Net::layout);
    let t = s.splice(u, a, d, b, x, h);
    assert(t.left == s.left && t.right == s.right);
    assert(t.sized());
    assert forall|y: int| #[trigger] t.is_spacer(y) implies t.up[y] == s.up[y] && t.down[y]
        == s.down[y] by {
        assert(y != u && y != d);
    }
    assert forall|y: int| t.len + 1 <= y < t.n() implies #[trigger] t.hdr[y] == s.hdr[y] by {}
    assert forall|y: int| #[trigger] t.is_opt(y) implies t.hdr[y] <= t.len by {
        assert(s.is_opt(y));
    }
    assert forall|y: int| t.len + 1 < y < t.n() implies #[trigger] t.hdr[y] != 0 by {
        assert(s.hdr[y] != 0);
    }
    assert forall|ss: int|
        t.len + 1 < ss < t.n() && #[trigger] t.hdr[ss] <= 0 implies t.block_before(
        t.up[ss] as int,
        ss,
    ) by {
        assert(s.hdr[ss] == t.hdr[ss]);
        assert(t.is_spacer(ss));
        assert(s.block_before(s.up[ss] as int, ss));
        let f = s.up[ss] as int;
        assert(t.hdr[f - 1] == s.hdr[f - 1]);
        assert forall|y: int| f <= y < ss implies #[trigger] t.hdr[y] > 0 by {
            assert(s.hdr[y] > 0);
        }
    }
    assert forall|ss: int|
        t.len + 1 <= ss < t.n() - 1 && #[trigger] t.hdr[ss] <= 0 implies t.block_after(
        ss,
        t.down[ss] as int,
    ) by {
        assert(s.hdr[ss] == t.hdr[ss]);
        assert(t.is_spacer(ss));
        assert(s.block_after(ss, s.down[ss] as int));
        let l = s.down[ss] as int;
        assert(t.hdr[l + 1] == s.hdr[l + 1]);
        assert forall|y: int| ss < y <= l implies #[trigger] t.hdr[y] > 0 by {
            assert(s.hdr[y] > 0);
        }
    }
}

proof fn lemma_splice_closed_at(
    s: Net,
    u: int,
    a: int,
    d: int,
    b: int,
    x: int,
    h: Data,
    y: int,
)
    requires
        s.wf(),
        s.is_col(u),
        s.is_col(a),
        s.is_col(d),
        s.is_col(b),
        s.is_hdr(x),
        s.col_of(a) == s.col_of(u),
        s.col_of(b) == s.col_of(d),
        s.is_col(y),
    ensures
        ({
            let t = s.splice(u, a, d, b, x, h);
            &&& t.is_col(t.up[y] as int)
            &&& t.is_col(t.down[y] as int)
            &&& t.col_of(t.up[y] as int) == t.col_of(y)
            &&& t.col_of(t.down[y] as int) == t.col_of(y)
        }),
{
    lemma_col_facts(s, y);
    lemma_col_facts(s, a);
    lemma_col_facts(s, b);
    lemma_col_facts(s, u);
    lemma_col_facts(s, d);
    let t = s.splice(u, a, d, b, x, h);
    assert(s.is_col(s.up[y] as int));
    assert(s.is_col(s.down[y] as int));
    lemma_splice_frame(s, u, a, d, b, x, h);
    lemma_frame_cols(s, t, y);
    lemma_frame_cols(s, t, a);
    lemma_frame_cols(s, t, b);
    lemma_frame_cols(s, t, u);
    lemma_frame_cols(s, t, d);
    lemma_frame_cols(s, t, s.up[y] as int);
    lemma_frame_cols(s, t, s.down[y] as int);
    if y == d {
        assert(t.up[y] == b);
    } else {
        assert(t.up[y] == s.up[y]);
    }
    if y == u {
        assert(t.down[y] == a);
    } else {
        assert(t.down[y] == s.down[y]);
    }
}

/// A splice that keeps every link in its column keeps the well-formedness.
pub proof fn lemma_splice_wf(s: Net, u: int, a: int, d: int, b: int, x: int, h: Data)
    requires
        s.wf(),
        s.is_col(u),
        s.is_col(a),
        s.is_col(d),
        s.is_col(b),
        s.is_hdr(x),
        s.col_of(a) == s.col_of(u),
        s.col_of(b) == s.col_of(d),
    ensures
        s.splice(u, a, d, b, x, h).wf(),
        s.splice(u, a, d, b, x, h).same_frame(s),
{
    reveal(Net::closed);
    let t = s.splice(u, a, d, b, x, h);
    lemma_splice_frame(s, u, a, d, b, x, h);
    assert forall|y: int| #[trigger] t.is_col(y) implies {
        &&& t.is_col(t.up[y] as int)
        &&& t.is_col(t.down[y] as int)
        &&& t.col_of(t.up[y] as int) == t.col_of(y)
        &&& t.col_of(t.down[y] as int) == t.col_of(y)
    } by {
        lemma_frame_cols(s, t, y);
        lemma_splice_closed_at(s, u, a, d, b, x, h, y);
    }
}

/// `unlink` keeps the well-formedness and the frame.
pub proof fn lemma_unlink_wf(s: Net, q: int)
    requires
        s.wf(),
        s.is_opt(q),
    ensures
        s.unlink(q).wf(),
        s.unlink(q).same_frame(s),
{
    let u = s.up[q] as int;
    let d = s.down[q] as int;
    let x = s.hdr[q] as int;
    lemma_col_facts(s, q);
    lemma_splice_wf(s, u, d, d, u, x, s.hdr[x].wrapping_sub(1));

}

/// `relink` keeps the well-formedness and the frame.
pub proof fn lemma_relink_wf(s: Net, q: int)
    requires
        s.wf(),
        s.is_opt(q),
    ensures
        s.relink(q).wf(),
        s.relink(q).same_frame(s),
{
    let u = s.up[q] as int;
    let d = s.down[q] as int;
    let x = s.hdr[q] as int;
    lemma_col_facts(s, q);
    lemma_splice_wf(s, u, q, d, q, x, s.hdr[x].wrapping_add(1));
}

/// Changing only horizontal links (within range) keeps the well-formedness
/// and the frame.
pub proof fn lemma_horizontal(s: Net, t: Net)
    requires
        s.wf(),
        t.hdr == s.hdr,
        t.up == s.up,
        t.down == s.down,
        t.color.len() == s.color.len(),
        t.slack.len() == s.slack.len(),
        t.bound.len() == s.bound.len(),
        t.len == s.len,
        t.primary == s.primary,
        t.colored == s.colored,
        t.multi == s.multi,
        t.left.len() == s.left.len(),
        t.right.len() == s.right.len(),
        forall|i: int| 0 <= i < t.ni() ==> #[trigger] t.left[i] < t.ni() && t.right[i] < t.ni(),
    ensures
        t.wf(),
        t.same_frame(s),
{
    reveal(Net::layout);
    reveal(Net::closed);
    assert forall|x: int| #[trigger] t.is_opt(x) implies t.hdr[x] <= t.len by {
        assert(s.is_opt(x));
    }
    assert forall|x: int| t.len + 1 < x < t.n() implies #[trigger] t.hdr[x] != 0 by {
        assert(s.hdr[x] != 0);
    }
    assert forall|x: int| #[trigger] t.is_col(x) implies {
        &&& t.is_col(t.up[x] as int)
        &&& t.is_col(t.down[x] as int)
        &&& t.col_of(t.up[x] as int) == t.col_of(x)
        &&& t.col_of(t.down[x] as int) == t.col_of(x)
    } by {
        assert(s.is_col(x));
        assert(s.is_col(s.up[x] as int));
        assert(s.is_col(s.down[x] as int));
    }
    assert forall|ss: int|
        t.len + 1 < ss < t.n() && #[trigger] t.hdr[ss] <= 0 implies t.block_before(
        t.up[ss] as int,
        ss,
    ) by {
        assert(s.block_before(s.up[ss] as int, ss));
    }
    assert forall|ss: int|
        t.len + 1 <= ss < t.n() - 1 && #[trigger] t.hdr[ss] <= 0 implies t.block_after(
        ss,
        t.down[ss] as int,
    ) by {
        assert(s.block_after(ss, s.down[ss] as int));
    }
}

/// Taking an item out of, or back into, the item list keeps the
/// well-formedness and the frame.
#[verifier::rlimit(30)]
pub proof fn lemma_item_wf(s: Net, i: int)
    requires
        s.wf(),
        0 <= i < s.ni(),
    ensures
        s.unlink_item(i).wf(),
        s.unlink_item(i).same_frame(s),
        s.relink_item(i).wf(),
        s.relink_item(i).same_frame(s),
{
    assert(s.sized());
    assert(s.left[i] < s.ni() && s.right[i] < s.ni());
    let t = s.unlink_item(i);
    assert forall|k: int| 0 <= k < t.ni() implies #[trigger] t.left[k] < t.ni() && t.right[k]
        < t.ni() by {
        assert(0 <= k < s.ni());
        assert(s.left[k] < s.ni() && s.right[k] < s.ni());
    }
    let w = s.relink_item(i);
    assert forall|k: int| 0 <= k < w.ni() implies #[trigger] w.left[k] < w.ni() && w.right[k]
        < w.ni() by {
        assert(s.left[k] < s.ni() && s.right[k] < s.ni());
    }
    lemma_horizontal(s, t);
    lemma_horizontal(s, w);
}

/// Changing the color of an entry keeps the well-formedness and the frame.
pub proof fn lemma_color_wf(s: LinksV, q: int, v: Data)
    requires
        s.wf(),
        0 <= q < s.net.n(),
    ensures
        s.set_color(q, v).wf(),
        s.set_color(q, v).net.same_frame(s.net),
{
    let t = s.set_color(q, v).net;
    assert forall|k: int| 0 <= k < t.ni() implies #[trigger] t.left[k] < t.ni() && t.right[k]
        < t.ni() by {
        assert(s.net.left[k] < s.net.ni() && s.net.right[k] < s.net.ni());
    }
    lemma_horizontal(s.net, t);
}

/// Setting `up[x] = y` inside a column keeps the well-formedness.
pub proof fn lemma_set_up_wf(s: Net, x: int, y: int)
    requires
        s.wf(),
        s.is_col(x),
        s.is_col(y),
        s.col_of(y) == s.col_of(x),
    ensures
        s.set_up(x, y).wf(),
        s.set_up(x, y).same_frame(s),
{
    lemma_col_facts(s, x);
    let c = s.col_of(x);
    assert(s.is_hdr(c)) by {
        reveal(Net::layout);
    }
    lemma_col_facts(s, c);
    lemma_splice_wf(s, x, s.down[x] as int, x, y, c, s.hdr[c]);
    assert(s.down.update(x, s.down[x]) =~= s.down);
    assert(s.hdr.update(c, s.hdr[c]) =~= s.hdr);
    assert(s.splice(x, s.down[x] as int, x, y, c, s.hdr[c]) == s.set_up(x, y));
}

/// Setting `down[x] = y` inside a column keeps the well-formedness.
pub proof fn lemma_set_down_wf(s: Net, x: int, y: int)
    requires
        s.wf(),
        s.is_col(x),
        s.is_col(y),
        s.col_of(y) == s.col_of(x),
    ensures
        s.set_down(x, y).wf(),
        s.set_down(x, y).same_frame(s),
{
    lemma_col_facts(s, x);
    let c = s.col_of(x);
    assert(s.is_hdr(c)) by {
        reveal(Net::layout);
    }
    lemma_col_facts(s, c);
    lemma_splice_wf(s, x, y, x, s.up[x] as int, c, s.hdr[c]);
    assert(s.up.update(x, s.up[x]) =~= s.up);
    assert(s.hdr.update(c, s.hdr[c]) =~= s.hdr);
    assert(s.splice(x, y, x, s.up[x] as int, c, s.hdr[c]) == s.set_down(x, y));
}

/// Setting the length of a header keeps the well-formedness.
pub proof fn lemma_set_hdr_wf(s: Net, p: int, h: Data)
    requires
        s.wf(),
        s.is_hdr(p),
    ensures
        s.set_hdr(p, h).wf(),
        s.set_hdr(p, h).same_frame(s),
{
    lemma_col_facts(s, p);
    lemma_splice_wf(s, p, s.down[p] as int, p, s.up[p] as int, p, h);
    assert(s.up.update(p, s.up[p]) =~= s.up);
    assert(s.down.update(p, s.down[p]) =~= s.down);
    assert(s.splice(p, s.down[p] as int, p, s.up[p] as int, p, h) == s.set_hdr(p, h));
}

/// Setting a bound keeps the well-formedness.
pub proof fn lemma_set_bound_wf(s: Net, i: int, v: Data)
    requires
        s.wf(),
        0 <= i < s.ni(),
    ensures
        s.set_bound(i, v).wf(),
        s.set_bound(i, v).same_frame(s),
{
    let t = s.set_bound(i, v);
    assert forall|k: int| 0 <= k < t.ni() implies #[trigger] t.left[k] < t.ni() && t.right[k]
        < t.ni() by {
        assert(s.left[k] < s.ni() && s.right[k] < s.ni());
    }
    lemma_horizontal(s, t);
}

/// The frame relation is transitive.
pub proof fn lemma_frame_trans(a: Net, b: Net, c: Net)
    requires
        a.same_frame(b),
        b.same_frame(c),
    ensures
        a.same_frame(c),
{
    assert forall|x: int| #[trigger] a.is_spacer(x) implies a.up[x] == c.up[x] && a.down[x]
        == c.down[x] by {
        lemma_frame_cols(b, a, x);
    }
}

/// Entry `x` is linked in its column: its neighbours point back to it.
pub open spec fn linked(s: Net, x: int) -> bool {
    &&& s.down[s.up[x] as int] == x
    &&& s.up[s.down[x] as int] == x
}

/// Item `i` is linked in its list: its neighbours point back to it.
pub open spec fn item_linked(s: Net, i: int) -> bool {
    &&& s.right[s.left[i] as int] == i
    &&& s.left[s.right[i] as int] == i
}

/// Putting an entry back into its column undoes taking it out, when it
/// was linked.
pub proof fn law_relink_unlink(s: Net, q: int)
    requires
        s.wf(),
        s.is_opt(q),
        linked(s, q),
    ensures
        s.unlink(q).relink(q) == s,
{
    lemma_col_facts(s, q);
    let u = s.up[q] as int;
    let d = s.down[q] as int;
    let x = s.hdr[q] as int;
    lemma_col_facts(s, u);
    lemma_col_facts(s, d);
    let t = s.unlink(q);
    assert(t.up[q] == s.up[q]);
    assert(t.down[q] == s.down[q]);
    assert(t.hdr[q] == s.hdr[q]);
    let w = t.relink(q);
    assert(w.hdr[x] == s.hdr[x]);
    assert(w.down =~= s.down);
    assert(w.up =~= s.up);
    assert(w.hdr =~= s.hdr);
}

/// Putting an item back into its list undoes taking it out, when it was
/// linked.
pub proof fn law_relink_item(s: Net, i: int)
    requires
        s.wf(),
        0 <= i < s.ni(),
        item_linked(s, i),
    ensures
        s.unlink_item(i).relink_item(i) == s,
{
    let l = s.left[i] as int;
    let r = s.right[i] as int;
    let t = s.unlink_item(i);
    assert(s.left[i] < s.ni());
    assert(s.left[r] < s.ni());
    assert(t.left[i] == s.left[i]);
    assert(t.right[i] == s.right[i]);
    let w = t.relink_item(i);
    assert(w.left =~= s.left);
    assert(w.right =~= s.right);
}

/// Taking an entry out of its column keeps every other linked entry
/// linked.
pub proof fn lemma_unlink_keeps_linked(s: Net, q: int, y: int)
    requires
        s.wf(),
        s.is_opt(q),
        linked(s, q),
        s.is_col(y),
        linked(s, y),
        y != q,
    ensures
        linked(s.unlink(q), y),
{
    lemma_col_facts(s, q);
    lemma_col_facts(s, y);
    let u = s.up[q] as int;
    let d = s.down[q] as int;
    lemma_col_facts(s, u);
    lemma_col_facts(s, d);
    let t = s.unlink(q);
    let a = s.up[y] as int;
    let b = s.down[y] as int;
    lemma_col_facts(s, a);
    lemma_col_facts(s, b);
    if y == d {
        assert(t.up[y] == u);
    } else {
        assert(t.up[y] == a);
        assert(a != u);
    }
    if y == u {
        assert(t.down[y] == d);
    } else {
        assert(t.down[y] == b);
        assert(b != d);
    }
}

/// In a layout, the spacer `x` that follows the spacer `last` with only
/// entries between them has its `up` link just after `last`, `last` has
/// its `down` link just before `x`, and `x` is no zero.
proof fn lemma_layout_spacer_links(v: Net, last: int, x: int)
    requires
        v.sized(),
        v.len + 1 <= last < x < v.n(),
        v.hdr[last] <= 0,
        v.hdr[x] <= 0,
        forall|y: int| last < y < x ==> #[trigger] v.hdr[y] > 0,
    ensures
        v.layout() ==> v.hdr[x] != 0 && v.up[x] == last + 1 && v.down[last] == x - 1,
{
    reveal(Net::layout);
    if v.layout() {
        assert(v.hdr[x] != 0);
        assert(v.block_before(v.up[x] as int, x));
        let u = v.up[x] as int;
        if u - 1 > last {
            assert(v.hdr[u - 1] > 0);
        } else if u - 1 < last {
            assert(v.hdr[last] > 0);
        }
        assert(v.block_after(last, v.down[last] as int));
        let d = v.down[last] as int;
        if d + 1 < x {
            assert(v.hdr[d + 1] > 0);
        } else if d + 1 > x {
            assert(v.hdr[x] > 0);
        }
    }
}

impl Links {
    /// Check the well-formedness of the nodes: array sizes, the layout of
    /// options and spacers, and vertical links that stay in their columns.
    pub fn check(&self) -> (r: bool)
        ensures
            r == self@.wf(),
    {
        proof {
            reveal(Net::layout);
        }
        self.check_sized() && self.check_layout() && self.check_closed()
    }

    fn check_sized(&self) -> (r: bool)
        ensures
            r == (self@.net.sized() && self@.net.ni() <= self@.net.n()),
    {
        if self.len >= usize::MAX - 2 {
            return false;
        }
        let ni = self.len + 2;
        let n = self.hdr.len();
        if self.left.len() != ni || self.right.len() != ni || self.slack.len() != ni
            || self.bound.len() != ni || self.up.len() != n || self.down.len() != n
            || self.color.len() != n || self.primary > self.len || n >= isize::MAX as usize
            || ni > n {
            return false;
        }
        let mut i: usize = 0;
        while i < ni
            invariant
                ni == self@.net.ni(),
                n == self@.net.n(),
                self.left.len() == ni,
                self.right.len() == ni,
                self.slack.len() == ni,
                self.bound.len() == ni,
                self.up.len() == n,
                self.down.len() == n,
                self.color.len() == n,
                self.primary <= self.len,
                n < isize::MAX,
                ni <= n,
                i <= ni,
                forall|k: int| 0 <= k < i ==> #[trigger] self@.net.left[k] < ni && self@.net.right[k] < ni,
            decreases ni - i,
        {
            if self.left[i] >= ni || self.right[i] >= ni {
                return false;
            }
            i += 1;
        }
        true
    }

    fn check_layout(&self) -> (r: bool)
        requires
            self@.net.sized(),
            self@.net.ni() <= self@.net.n(),
        ensures
            r == self@.net.layout(),
    {
        let ni = self.len + 2;
        let n = self.hdr.len();
        if self.hdr[ni - 1] > 0 || self.hdr[n - 1] > 0 {
            assert(!self@.net.layout()) by {
                reveal(Net::layout);
            }
            return false;
        }
        let len = self.len;
        let ghost v = self@.net;
        let mut last: usize = ni - 1;
        let mut x: usize = ni;
        while x < n
            invariant
                v == self@.net,
                v.sized(),
                ni == v.ni(),
                n == v.n(),
                len == v.len,
                ni <= n,
                v.hdr[ni - 1] <= 0,
                v.hdr[n - 1] <= 0,
                ni - 1 <= last < x <= n,
                v.hdr[last as int] <= 0,
                forall|y: int|
                    ni <= y < x ==> {
                        &&& #[trigger] v.hdr[y] != 0
                        &&& v.hdr[y] > 0 ==> v.hdr[y] <= len
                        &&& y > last ==> v.hdr[y] > 0
                    },
                forall|ss: int| len + 1 < ss < x ==> #[trigger] v.before_ok(ss),
                forall|ss: int| len + 1 <= ss < last ==> #[trigger] v.after_ok(ss),
            decreases n - x,
        {
            let h = self.hdr[x];
            if h > 0 {
                if h as usize > len {
                    assert(!v.layout()) by {
                        reveal(Net::layout);
                        assert(v.is_opt(x as int));
                    }
                    return false;
                }
            } else {
                if h == 0 || self.up[x] != last + 1 || self.down[last] != x - 1 {
                    assert(!v.layout()) by {
                        lemma_layout_spacer_links(v, last as int, x as int);
                    }
                    return false;
                }
                proof {
                    assert forall|y: int| last + 1 <= y < x implies #[trigger] v.hdr[y] > 0 by {
                        assert(v.hdr[y] != 0);
                    }
                    assert(v.before_ok(x as int));
                    assert forall|y: int| last < y <= x - 1 implies #[trigger] v.hdr[y] > 0 by {
                        assert(v.hdr[y] != 0);
                    }
                    assert(v.after_ok(last as int));
                }
                last = x;
            }
            x += 1;
        }
        proof {
            assert(last == n - 1) by {
                if last < n - 1 {
                    assert(v.hdr[n - 1] != 0);
                }
            }
            reveal(Net::layout);
            assert forall|y: int| #[trigger] v.is_opt(y) implies v.hdr[y] <= v.len by {
                assert(v.hdr[y] != 0);
            }
            assert forall|y: int| v.len + 1 < y < v.n() implies #[trigger] v.hdr[y] != 0 by {}
            assert forall|ss: int| v.len + 1 < ss < v.n() && #[trigger] v.hdr[ss] <= 0 implies v.block_before(
                v.up[ss] as int,
                ss,
            ) by {
                assert(v.before_ok(ss));
            }
            assert forall|ss: int| v.len + 1 <= ss < v.n() - 1 && #[trigger] v.hdr[ss] <= 0 implies v.block_after(
                ss,
                v.down[ss] as int,
            ) by {
                if ss == v.len + 1 && last > ss {
                    assert(v.after_ok(ss));
                } else {
                    assert(v.after_ok(ss));
                }
            }
            assert(v.layout());
        }
        true
    }

    fn check_closed(&self) -> (r: bool)
        requires
            self@.net.sized(),
            self@.net.layout(),
            self@.net.ni() <= self@.net.n(),
        ensures
            r == self@.net.closed(),
    {
        let n = self.hdr.len();
        let len = self.len;
        let mut y: usize = 1;
        while y < n
            invariant
                self@.net.sized(),
                self@.net.layout(),
                self@.net.ni() <= n,
                n == self@.net.n(),
                len == self@.net.len,
                1 <= y <= n,
                forall|k: int|
                    0 <= k < y && #[trigger] self@.net.is_col(k) ==> {
                        &&& self@.net.is_col(self@.net.up[k] as int)
                        &&& self@.net.is_col(self@.net.down[k] as int)
                        &&& self@.net.col_of(self@.net.up[k] as int) == self@.net.col_of(k)
                        &&& self@.net.col_of(self@.net.down[k] as int) == self@.net.col_of(k)
                    },
            decreases n - y,
        {
            if self.is_col_raw(y) {
                let u = self.up[y];
                let d = self.down[y];
                if !self.is_col_raw(u) || !self.is_col_raw(d) || self.col_raw(u) != self.col_raw(y)
                    || self.col_raw(d) != self.col_raw(y) {
                    proof {
                        reveal(Net::closed);
                        assert(self@.net.is_col(y as int));
                    }
                    return false;
                }
            }
            y += 1;
        }
        proof {
            assert(!self@.net.is_col(0));
            reveal(Net::closed);
        }
        true
    }

    /// Whether `x` is a column node, from the sizes alone.
    fn is_col_raw(&self, x: Link) -> (r: bool)
        requires
            self@.net.sized(),
            self@.net.ni() <= self@.net.n(),
        ensures
            r == self@.net.is_col(x as int),
    {
        if 1 <= x && x <= self.len {
            true
        } else if x >= self.len + 2 && x < self.hdr.len() {
            self.hdr[x] > 0
        } else {
            false
        }
    }

    /// The column of a column node.
    fn col_raw(&self, x: Link) -> (r: isize)
        requires
            self@.net.sized(),
            self@.net.ni() <= self@.net.n(),
            self@.net.is_col(x as int),
        ensures
            r == self@.net.col_of(x as int),
    {
        if x <= self.len {
            x as isize
        } else {
            self.hdr[x]
        }
    }

    /// Whether `x` is a column node: an item header or an option entry.
    pub fn is_col_node(&self, x: Link) -> (r: bool)
        requires
            self@.wf(),
        ensures
            r == self@.net.is_col(x as int),
    {
        proof {
            lemma_end_spacers(self@.net);
        }
        if 1 <= x && x <= self.len {
            true
        } else if x >= self.len + 2 && x < self.hdr.len() {
            self.hdr[x] > 0
        } else {
            false
        }
    }
}

/// Hide option entry `p`: every other entry of its option that takes part
/// (see [`LinksV::active`]) leaves its column.
pub(crate) fn hide_walk(p: Link, d: &mut Links, colored: bool)
    requires
        old(d)@.wf(),
        old(d)@.net.is_opt(p as int),
    ensures
        final(d)@ == old(d)@.hide_with(p as int, colored),
        final(d)@.wf(),
        final(d)@.net.same_frame(old(d)@.net),
        final(d)@.ft == old(d)@.ft,
{
    let ghost s0 = d@;
    let ghost n = d@.net.n();
    let mut q = p + 1;
    proof {
        lemma_col_facts(d@.net, p as int);
    }
    while q != p
        invariant
            s0.wf(),
            s0.net.is_opt(p as int),
            n == s0.net.n(),
            d@.wf(),
            d@.net.same_frame(s0.net),
            d@.ft == s0.ft,
            d@.net.len + 2 <= q < n,
            q > p ==> forall|y: int| p <= y < q ==> #[trigger] d@.net.hdr[y] > 0,
            q < p ==> forall|y: int| q <= y <= p ==> #[trigger] d@.net.hdr[y] > 0,
            d@.hide_from(p as int, q as int, n, colored) == s0.hide_with(p as int, colored),
        decreases (if q > p {
            2 * n - q
        } else {
            p - q
        }),
    {
        let x = d.hdr[q];
        let u = d.up[q];
        let dd = d.down[q];
        if x <= 0 {
            proof {
                assert(q > p);
                lemma_spacer_facts(d@.net, q as int);
                assert(d@.net.block_before(u as int, q as int));
                if u > p {
                    assert(d@.net.hdr[u - 1] > 0);
                }
            }
            q = u;
        } else {
            let ghost before = d@;
            proof {
                assert(d@.net.is_opt(q as int));
                lemma_col_facts(d@.net, q as int);
            }
            if !colored || d.color[q] >= 0 {
                proof {
                    lemma_unlink_wf(d@.net, q as int);
                    lemma_frame_trans(d@.net.unlink(q as int), d@.net, s0.net);
                }
                d.down.set(u, dd);
                d.up.set(dd, u);
                let xi = x as usize;
                let h = d.hdr[xi];
                d.hdr.set(xi, h.wrapping_sub(1));
                d.updates = d.updates.wrapping_add(1);
                assert(d@ == before.unlink(q as int));
            }
            q += 1;
        }
    }
}

/// Unhide option entry `p`: walk backwards around its option and put every
/// entry that takes part back between its remembered neighbours.
pub(crate) fn unhide_walk(p: Link, d: &mut Links, colored: bool)
    requires
        old(d)@.wf(),
        old(d)@.net.is_opt(p as int),
    ensures
        final(d)@ == old(d)@.unhide_with(p as int, colored),
        final(d)@.wf(),
        final(d)@.net.same_frame(old(d)@.net),
        final(d)@.ft == old(d)@.ft,
{
    let ghost s0 = d@;
    let ghost n = d@.net.n();
    let mut q = p - 1;
    while q != p
        invariant
            s0.wf(),
            s0.net.is_opt(p as int),
            n == s0.net.n(),
            d@.wf(),
            d@.net.same_frame(s0.net),
            d@.ft == s0.ft,
            d@.net.len + 1 <= q < n,
            q < p ==> forall|y: int| q < y <= p ==> #[trigger] d@.net.hdr[y] > 0,
            q > p ==> forall|y: int| p <= y <= q ==> #[trigger] d@.net.hdr[y] > 0,
            d@.unhide_from(p as int, q as int, n, colored) == s0.unhide_with(p as int, colored),
        decreases (if q < p {
            n + q
        } else {
            q - p
        }),
    {
        let x = d.hdr[q];
        let u = d.up[q];
        let dd = d.down[q];
        if x <= 0 {
            proof {
                assert(q < p);
                lemma_spacer_facts(d@.net, q as int);
                assert(d@.net.block_after(q as int, dd as int));
                if dd < p {
                    assert(d@.net.hdr[dd + 1] > 0);
                }
            }
            q = dd;
        } else {
            let ghost before = d@;
            proof {
                lemma_end_spacers(d@.net);
                assert(d@.net.is_opt(q as int));
                lemma_col_facts(d@.net, q as int);
            }
            if !colored || d.color[q] >= 0 {
                proof {
                    lemma_relink_wf(d@.net, q as int);
                    lemma_frame_trans(d@.net.relink(q as int), d@.net, s0.net);
                }
                d.down.set(u, q);
                d.up.set(dd, q);
                let xi = x as usize;
                let h = d.hdr[xi];
                d.hdr.set(xi, h.wrapping_add(1));
                assert(d@ == before.relink(q as int));
            }
            q -= 1;
        }
    }
}

} // verus!
