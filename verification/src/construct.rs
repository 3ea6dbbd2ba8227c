//! Building the option nodes of a problem from its options.

use vstd::prelude::*;

use crate::covering::column;
use crate::links::Net;
use crate::{Count, Data, Link, OptOrder, Rng};

verus! {

/// The option nodes as parallel arrays.
pub struct OptArrays {
    pub hdr: Vec<Data>,
    pub up: Vec<Link>,
    pub down: Vec<Link>,
    pub color: Vec<Data>,
}

/// The number of option nodes of the options `os` over `n` items: the
/// headers and the first spacer, then each option's entries and the spacer
/// after it.
pub open spec fn node_count<T>(n: int, os: Seq<Seq<T>>) -> int
    decreases os.len(),
{
    if os.len() == 0 {
        n + 2
    } else {
        node_count(n, os.drop_last()) + os.last().len() + 1
    }
}

pub proof fn lemma_node_count_ge<T>(n: int, os: Seq<Seq<T>>)
    ensures
        node_count(n, os) >= n + 2 + os.len(),
    decreases os.len(),
{
    if os.len() > 0 {
        lemma_node_count_ge(n, os.drop_last());
    }
}

pub proof fn lemma_node_count_mono<T>(n: int, os: Seq<Seq<T>>, j: int)
    requires
        0 <= j <= os.len(),
    ensures
        node_count(n, os.take(j)) <= node_count(n, os),
    decreases os.len() - j,
{
    if j < os.len() {
        lemma_node_count_mono(n, os, j + 1);
        assert(os.take(j + 1).drop_last() =~= os.take(j));
    } else {
        assert(os.take(j) =~= os);
    }
}

/// The index of the spacer before option `j`: after the `n + 2` first
/// nodes and the blocks of the options before `j`.
pub open spec fn base<T>(n: int, os: Seq<Seq<T>>, j: int) -> int {
    node_count(n, os.take(j)) - 1
}

/// The node of entry `k` of option `j`.
pub open spec fn entry_at<T>(n: int, os: Seq<Seq<T>>, j: int, k: int) -> int {
    base(n, os, j) + 1 + k
}

/// The spacer after option `j`.
pub open spec fn spacer_after<T>(n: int, os: Seq<Seq<T>>, j: int) -> int {
    base(n, os, j) + os[j].len() + 1
}

/// The number of entries of item `c` in the option `s`.
pub open spec fn count_in(s: Seq<(Count, Data)>, c: int) -> int
    decreases s.len(),
{
    if s.len() == 0 {
        0
    } else {
        count_in(s.drop_last(), c) + if s.last().0 == c {
            1int
        } else {
            0int
        }
    }
}

/// The number of entries of item `c` in all the options `os`.
pub open spec fn occurrences(os: Seq<Seq<(Count, Data)>>, c: int) -> int
    decreases os.len(),
{
    if os.len() == 0 {
        0
    } else {
        occurrences(os.drop_last(), c) + count_in(os.last(), c)
    }
}

/// Entries are never counted negatively.
proof fn lemma_count_nonneg(s: Seq<(Count, Data)>, c: int)
    ensures
        count_in(s, c) >= 0,
    decreases s.len(),
{
    if s.len() > 0 {
        lemma_count_nonneg(s.drop_last(), c);
    }
}

/// A prefix of an option holds no more entries of an item than the
/// option.
proof fn lemma_count_prefix(s: Seq<(Count, Data)>, k: int, c: int)
    requires
        0 <= k <= s.len(),
    ensures
        count_in(s.take(k), c) <= count_in(s, c),
    decreases s.len() - k,
{
    if k < s.len() {
        lemma_count_prefix(s, k + 1, c);
        assert(s.take(k + 1).drop_last() =~= s.take(k));
    } else {
        assert(s.take(k) =~= s);
    }
}

/// The first options hold no more entries of an item than all of them.
proof fn lemma_occurrences_prefix(ss: Seq<Seq<(Count, Data)>>, j: int, c: int)
    requires
        0 <= j <= ss.len(),
    ensures
        occurrences(ss.take(j), c) <= occurrences(ss, c),
    decreases ss.len() - j,
{
    if j < ss.len() {
        lemma_occurrences_prefix(ss, j + 1, c);
        assert(ss.take(j + 1).drop_last() =~= ss.take(j));
        lemma_count_nonneg(ss[j], c);
    } else {
        assert(ss.take(j) =~= ss);
    }
}

/// The entries of item `c` before entry `k` of option `o`, which is an
/// entry of `c`, are fewer than all the entries of `c`.
proof fn lemma_column_below(ss: Seq<Seq<(Count, Data)>>, o: int, k: int, c: int)
    requires
        0 <= o < ss.len(),
        0 <= k < ss[o].len(),
        ss[o][k].0 == c,
    ensures
        occurrences(ss.take(o), c) + count_in(ss[o].take(k), c) + 1 <= occurrences(ss, c),
{
    assert(ss[o].take(k + 1).drop_last() =~= ss[o].take(k));
    lemma_count_prefix(ss[o], k + 1, c);
    assert(ss.take(o + 1).drop_last() =~= ss.take(o));
    lemma_occurrences_prefix(ss, o + 1, c);
}

/// While entry `k` of option `o`, of item `c`, is added, the column of
/// `c` is shorter than the number of all entries of `c`.
proof fn lemma_column_len(
    n: Count,
    ss: Seq<Seq<(Count, Data)>>,
    o: int,
    k: int,
    a_start: OptArrays,
    a: OptArrays,
    c: int,
)
    requires
        progress(n, ss, o, k, a_start, a),
        0 <= c < n,
        0 <= o < ss.len(),
        0 <= k < ss[o].len(),
        ss[o][k].0 == c,
    ensures
        a.hdr@[c + 1] + 1 <= occurrences(ss, c),
{
    reveal(progress);
    assert(a.hdr@[c + 1] == occurrences(ss.take(o), c) + count_in(ss[o].take(k), c));
    lemma_column_below(ss, o, k, c);
}

/// The spacer after option `j` is the spacer before option `j + 1`.
pub proof fn lemma_base_step<T>(n: int, os: Seq<Seq<T>>, j: int)
    requires
        0 <= j < os.len(),
    ensures
        base(n, os, j + 1) == spacer_after(n, os, j),
{
    assert(os.take(j + 1).drop_last() =~= os.take(j));
    assert(os.take(j + 1).last() == os[j]);
}

/// Spacers come in the order of the options.
pub proof fn lemma_base_mono<T>(n: int, os: Seq<Seq<T>>, j: int, o: int)
    requires
        0 <= j <= o <= os.len(),
    ensures
        base(n, os, j) <= base(n, os, o),
    decreases o - j,
{
    if j < o {
        lemma_base_step(n, os, j);
        lemma_base_mono(n, os, j + 1, o);
    }
}

impl OptArrays {
    /// The option nodes as a [`Net`] over `n` items, without item nodes.
    pub open spec fn net(self, n: Count) -> Net {
        Net {
            left: Seq::empty(),
            right: Seq::empty(),
            slack: Seq::empty(),
            bound: Seq::empty(),
            hdr: self.hdr@,
            up: self.up@,
            down: self.down@,
            color: self.color@,
            primary: 0,
            len: n,
            colored: false,
            multi: false,
        }
    }

    /// Array lengths, and the spacers `n + 1` and `p`.
    pub open spec fn sizes_ok(self, n: Count, p: int) -> bool {
        &&& self.up@.len() == self.hdr@.len()
        &&& self.down@.len() == self.hdr@.len()
        &&& self.color@.len() == self.hdr@.len()
        &&& n + 1 <= p < self.hdr@.len() < isize::MAX
        &&& self.hdr@[n + 1] == 0
        &&& self.hdr@[p] <= 0
    }

    /// Past node `n + 1` every node is an entry (at most `n`) or a spacer
    /// (negative), past `p` only entries; headers count less than the
    /// number of nodes.
    #[verifier::opaque]
    pub open spec fn hdrs_ok(self, n: Count, p: int) -> bool {
        &&& forall|x: int|
            n + 1 < x < self.hdr@.len() ==> #[trigger] self.hdr@[x] != 0 && self.hdr@[x] <= n
        &&& forall|x: int| p < x < self.hdr@.len() ==> #[trigger] self.hdr@[x] > 0
        &&& forall|x: int| 1 <= x <= n ==> 0 <= #[trigger] self.hdr@[x] < self.hdr@.len()
    }

    /// The spacers up to `p` frame whole options.
    #[verifier::opaque]
    pub open spec fn blocks_ok(self, n: Count, p: int) -> bool {
        let s = self.net(n);
        &&& forall|t: int|
            n + 1 < t <= p && #[trigger] self.hdr@[t] <= 0 ==> s.block_before(
                self.up@[t] as int,
                t,
            )
        &&& forall|t: int|
            n + 1 <= t < p && #[trigger] self.hdr@[t] <= 0 ==> s.block_after(
                t,
                self.down@[t] as int,
            )
    }

    /// The nodes up to spacer `p` frame whole options, the nodes after it
    /// are entries of the option being built, and every column is closed.
    pub open spec fn skeleton(self, n: Count, p: int) -> bool {
        &&& self.sizes_ok(n, p)
        &&& self.hdrs_ok(n, p)
        &&& self.blocks_ok(n, p)
        &&& self.net(n).closed()
    }
}

/// A skeleton that ends with a spacer has the layout of options.
pub proof fn lemma_skeleton_layout(a: OptArrays, n: Count)
    requires
        a.skeleton(n, a.hdr@.len() - 1),
    ensures
        a.net(n).layout(),
{
    reveal(Net::layout);
    reveal(OptArrays::hdrs_ok);
    reveal(OptArrays::blocks_ok);
    let s = a.net(n);
    assert forall|x: int| #[trigger] s.is_opt(x) implies s.hdr[x] <= s.len by {
        assert(a.hdr@[x] != 0 && a.hdr@[x] <= n);
    }
    assert forall|x: int| s.len + 1 < x < s.n() implies #[trigger] s.hdr[x] != 0 by {
        assert(a.hdr@[x] != 0 && a.hdr@[x] <= n);
    }
}

/// Option nodes over `n` items, with no item nodes and no colors.
pub open spec fn column_net(n: Count, hdr: Seq<Data>, up: Seq<Link>, down: Seq<Link>) -> Net {
    Net {
        left: Seq::empty(),
        right: Seq::empty(),
        slack: Seq::empty(),
        bound: Seq::empty(),
        hdr: hdr,
        up: up,
        down: down,
        color: Seq::empty(),
        primary: 0,
        len: n,
        colored: false,
        multi: false,
    }
}

/// The same option nodes over other item nodes keep their layout and their
/// closed columns.
#[verifier::spinoff_prover]
pub proof fn lemma_same_options(s: Net, t: Net)
    requires
        s.hdr == t.hdr,
        s.up == t.up,
        s.down == t.down,
        s.len == t.len,
        s.layout(),
        s.closed(),
    ensures
        t.layout(),
        t.closed(),
{
    reveal(Net::layout);
    reveal(Net::closed);
    assert forall|x: int| #[trigger] t.is_col(x) implies {
        &&& t.is_col(t.up[x] as int)
        &&& t.is_col(t.down[x] as int)
        &&& t.col_of(t.up[x] as int) == t.col_of(x)
        &&& t.col_of(t.down[x] as int) == t.col_of(x)
    } by {
        assert(s.is_col(x));
    }
    assert forall|x: int| #[trigger] t.is_opt(x) implies t.hdr[x] <= t.len by {
        assert(s.is_opt(x));
    }
}

/// Whether a column is a cycle depends only on the option nodes.
pub proof fn lemma_column_same(s: Net, t: Net, c: int, l: Seq<int>)
    requires
        s.hdr == t.hdr,
        s.up == t.up,
        s.down == t.down,
        s.len == t.len,
        column(s, c, l),
    ensures
        column(t, c, l),
{
    assert forall|j: int| 0 <= j < l.len() implies t.is_opt(#[trigger] l[j]) && t.hdr[l[j]] == c by {
        assert(s.is_opt(l[j]));
    }
}

/// `t` is `s` with a new entry of column `it` appended and linked below
/// column node `q`.
pub open spec fn entry_pushed(s: OptArrays, t: OptArrays, it: int, q: int, c: Data) -> bool {
    let x = s.hdr@.len() as int;
    let qd = s.down@[q] as int;
    &&& t.hdr@ == s.hdr@.update(it, (s.hdr@[it] + 1) as Data).push(it as Data)
    &&& t.color@ == s.color@.push(c)
    &&& t.up@ == s.up@.update(qd, x as Link).push(q as Link)
    &&& t.down@ == s.down@.update(q, x as Link).push(qd as Link)
}

/// Appending an entry keeps the columns closed.
proof fn lemma_push_entry_closed(s: OptArrays, t: OptArrays, n: Count, p: int, it: int, q: int, c: Data)
    requires
        s.sizes_ok(n, p),
        s.net(n).closed(),
        1 <= it <= n,
        s.net(n).is_col(q),
        s.net(n).col_of(q) == it,
        entry_pushed(s, t, it, q, c),
    ensures
        t.net(n).closed(),
{
    reveal(Net::closed);
    let a = s.net(n);
    let b = t.net(n);
    let x = s.hdr@.len() as int;
    let qd = s.down@[q] as int;
    assert(a.is_col(qd) && a.col_of(qd) == it);
    assert forall|y: int| 0 <= y < a.n() && y != it implies #[trigger] b.hdr[y] == a.hdr[y] by {}
    assert(b.is_col(x) && b.col_of(x) == it);
    assert forall|y: int| #[trigger] b.is_col(y) implies {
        &&& b.is_col(b.up[y] as int)
        &&& b.is_col(b.down[y] as int)
        &&& b.col_of(b.up[y] as int) == b.col_of(y)
        &&& b.col_of(b.down[y] as int) == b.col_of(y)
    } by {
        if y == x {
            assert(b.up[y] == q && b.down[y] == qd);
            assert(b.is_col(q) && b.col_of(q) == it);
            assert(b.is_col(qd) && b.col_of(qd) == it);
        } else {
            assert(a.is_col(y));
            let u = a.up[y] as int;
            let d = a.down[y] as int;
            assert(a.is_col(u) && a.col_of(u) == a.col_of(y));
            assert(a.is_col(d) && a.col_of(d) == a.col_of(y));
            assert(b.is_col(u) && b.col_of(u) == a.col_of(u));
            assert(b.is_col(d) && b.col_of(d) == a.col_of(d));
            assert(b.col_of(y) == a.col_of(y));
        }
    }
}

/// Appending an entry keeps the headers' bounds.
proof fn lemma_push_entry_hdrs(s: OptArrays, t: OptArrays, n: Count, p: int, it: int, q: int, c: Data)
    requires
        s.sizes_ok(n, p),
        s.hdrs_ok(n, p),
        1 <= it <= n,
        s.net(n).is_col(q),
        s.net(n).is_col(s.down@[q] as int),
        entry_pushed(s, t, it, q, c),
        s.hdr@.len() + 1 < isize::MAX,
    ensures
        t.sizes_ok(n, p),
        t.hdrs_ok(n, p),
{
    reveal(OptArrays::hdrs_ok);
    let x = s.hdr@.len() as int;
    assert(t.hdr@[n + 1] == s.hdr@[n + 1]);
    assert(t.hdr@[p] == s.hdr@[p]);
    assert(t.up@.len() == t.hdr@.len() && t.down@.len() == t.hdr@.len());
    assert forall|y: int| n + 1 < y < t.hdr@.len() implies #[trigger] t.hdr@[y] != 0 && t.hdr@[y]
        <= n by {
        if y < x {
            assert(s.hdr@[y] != 0 && s.hdr@[y] <= n);
        }
    }
    assert forall|y: int| p < y < t.hdr@.len() implies #[trigger] t.hdr@[y] > 0 by {
        if y < x {
            assert(s.hdr@[y] > 0);
        }
    }
    assert forall|y: int| 1 <= y <= n implies 0 <= #[trigger] t.hdr@[y] < t.hdr@.len() by {
        assert(0 <= s.hdr@[y] < s.hdr@.len());
    }
}

/// Changes that keep the headers of every node past `n + 1` and the links
/// of every spacer keep the options framed up to spacer `p`.
#[verifier::rlimit(50)]
proof fn lemma_blocks_frame(s: OptArrays, t: OptArrays, n: Count, p: int)
    requires
        s.sizes_ok(n, p),
        s.blocks_ok(n, p),
        t.hdr@.len() >= s.hdr@.len(),
        forall|y: int| n + 1 <= y < s.hdr@.len() ==> #[trigger] t.hdr@[y] == s.hdr@[y],
        forall|y: int| n + 1 < y <= p && #[trigger] s.hdr@[y] <= 0 ==> t.up@[y] == s.up@[y],
        forall|y: int| n + 1 <= y < p && #[trigger] s.hdr@[y] <= 0 ==> t.down@[y] == s.down@[y],
    ensures
        forall|w: int|
            n + 1 < w <= p && #[trigger] t.hdr@[w] <= 0 ==> t.net(n).block_before(
                t.up@[w] as int,
                w,
            ),
        forall|w: int|
            n + 1 <= w < p && #[trigger] t.hdr@[w] <= 0 ==> t.net(n).block_after(
                w,
                t.down@[w] as int,
            ),
{
    reveal(OptArrays::blocks_ok);
    let a = s.net(n);
    let b = t.net(n);
    assert forall|w: int| n + 1 < w <= p && #[trigger] t.hdr@[w] <= 0 implies b.block_before(
        t.up@[w] as int,
        w,
    ) by {
        assert(s.hdr@[w] <= 0);
        assert(a.block_before(s.up@[w] as int, w));
        let f = s.up@[w] as int;
        assert(b.hdr[f - 1] == a.hdr[f - 1]);
        assert forall|y: int| f <= y < w implies #[trigger] b.hdr[y] > 0 by {
            assert(a.hdr[y] > 0);
        }
    }
    assert forall|w: int| n + 1 <= w < p && #[trigger] t.hdr@[w] <= 0 implies b.block_after(
        w,
        t.down@[w] as int,
    ) by {
        assert(s.hdr@[w] <= 0);
        assert(a.block_after(w, s.down@[w] as int));
        let l = s.down@[w] as int;
        assert(b.hdr[l + 1] == a.hdr[l + 1]);
        assert forall|y: int| w < y <= l implies #[trigger] b.hdr[y] > 0 by {
            assert(a.hdr[y] > 0);
        }
    }
}

/// Appending an entry keeps the frame of the options built so far.
proof fn lemma_push_entry_blocks(s: OptArrays, t: OptArrays, n: Count, p: int, it: int, q: int, c: Data)
    requires
        s.sizes_ok(n, p),
        s.blocks_ok(n, p),
        1 <= it <= n,
        s.net(n).is_col(q),
        s.net(n).is_col(s.down@[q] as int),
        entry_pushed(s, t, it, q, c),
    ensures
        t.blocks_ok(n, p),
{
    let a = s.net(n);
    assert forall|y: int| n + 1 <= y < s.hdr@.len() implies #[trigger] t.hdr@[y] == s.hdr@[y] by {}
    assert forall|y: int| n + 1 < y <= p && #[trigger] s.hdr@[y] <= 0 implies t.up@[y] == s.up@[y] by {
        assert(!a.is_col(y));
    }
    assert forall|y: int| n + 1 <= y < p && #[trigger] s.hdr@[y] <= 0 implies t.down@[y] == s.down@[y] by {
        assert(!a.is_col(y));
    }
    lemma_blocks_frame(s, t, n, p);
    reveal(OptArrays::blocks_ok);
}

/// Append an entry of column `it` with color `c` below entry `q` of the
/// same column, and count it in the header.
fn push_entry(a: &mut OptArrays, n: Count, p: Link, it: Link, q: Link, c: Data)
    requires
        old(a).skeleton(n, p as int),
        1 <= it <= n,
        old(a).net(n).is_col(q as int),
        old(a).net(n).col_of(q as int) == it,
        old(a).hdr@.len() + 1 < isize::MAX,
    ensures
        entry_pushed(*old(a), *final(a), it as int, q as int, c),
        old(a).net(n).is_col(old(a).down@[q as int] as int),
        final(a).skeleton(n, p as int),
{
    let ghost s = *a;
    proof {
        reveal(Net::closed);
        assert(s.net(n).is_col(s.down@[q as int] as int));
    }
    proof {
        reveal(OptArrays::hdrs_ok);
    }
    let x = a.hdr.len();
    let qd = a.down[q];
    let h = a.hdr[it] + 1;
    a.hdr.set(it, h);
    a.hdr.push(it as Data);
    a.color.push(c);
    a.up.set(qd, x);
    a.up.push(q);
    a.down.set(q, x);
    a.down.push(qd);
    proof {
        lemma_push_entry_closed(s, *a, n, p as int, it as int, q as int, c);
        lemma_push_entry_hdrs(s, *a, n, p as int, it as int, q as int, c);
        lemma_push_entry_blocks(s, *a, n, p as int, it as int, q as int, c);
    }
}

/// `t` is `s` with the option after spacer `p` closed by a spacer holding
/// `-m` that links up to the option's first entry, and `p` linking down to
/// the option's last entry.
pub open spec fn spacer_pushed(s: OptArrays, t: OptArrays, p: int, m: Data) -> bool {
    &&& t.hdr@ == s.hdr@.push((-m) as Data)
    &&& t.color@ == s.color@.push(0)
    &&& t.up@ == s.up@.push((p + 1) as Link)
    &&& t.down@ == s.down@.update(p, (s.hdr@.len() - 1) as Link).push(0)
}

/// Closing an option keeps the columns closed and the headers' bounds.
proof fn lemma_push_spacer_hdrs(s: OptArrays, t: OptArrays, n: Count, p: int, m: Data)
    requires
        s.skeleton(n, p),
        1 <= m <= s.hdr@.len(),
        s.hdr@.len() + 1 < isize::MAX,
        spacer_pushed(s, t, p, m),
    ensures
        t.sizes_ok(n, s.hdr@.len() as int),
        t.hdrs_ok(n, s.hdr@.len() as int),
        t.net(n).closed(),
{
    reveal(Net::closed);
    reveal(OptArrays::hdrs_ok);
    let a = s.net(n);
    let b = t.net(n);
    let x = s.hdr@.len() as int;
    assert forall|y: int| 0 <= y < a.n() implies #[trigger] b.hdr[y] == a.hdr[y] by {}
    assert(!a.is_col(p));
    assert forall|y: int| #[trigger] b.is_col(y) implies {
        &&& b.is_col(b.up[y] as int)
        &&& b.is_col(b.down[y] as int)
        &&& b.col_of(b.up[y] as int) == b.col_of(y)
        &&& b.col_of(b.down[y] as int) == b.col_of(y)
    } by {
        assert(a.is_col(y));
        assert(y != p);
        let u = a.up[y] as int;
        let d = a.down[y] as int;
        assert(a.is_col(u) && a.col_of(u) == a.col_of(y));
        assert(a.is_col(d) && a.col_of(d) == a.col_of(y));
        assert(b.is_col(u) && b.col_of(u) == a.col_of(u));
        assert(b.is_col(d) && b.col_of(d) == a.col_of(d));
    }
    assert forall|y: int| n + 1 < y < t.hdr@.len() implies #[trigger] t.hdr@[y] != 0 && t.hdr@[y]
        <= n by {
        if y < x {
            assert(s.hdr@[y] != 0 && s.hdr@[y] <= n);
        }
    }
    assert forall|y: int| 1 <= y <= n implies 0 <= #[trigger] t.hdr@[y] < t.hdr@.len() by {
        assert(0 <= s.hdr@[y] < s.hdr@.len());
    }
}

/// Closing an option keeps the options framed.
#[verifier::rlimit(50)]
proof fn lemma_push_spacer_blocks(s: OptArrays, t: OptArrays, n: Count, p: int, m: Data)
    requires
        s.sizes_ok(n, p),
        s.hdrs_ok(n, p),
        s.blocks_ok(n, p),
        1 <= m,
        spacer_pushed(s, t, p, m),
    ensures
        t.blocks_ok(n, s.hdr@.len() as int),
{
    let x = s.hdr@.len() as int;
    assert forall|y: int| n + 1 <= y < s.hdr@.len() implies #[trigger] t.hdr@[y] == s.hdr@[y] by {}
    assert forall|y: int| n + 1 < y <= p && #[trigger] s.hdr@[y] <= 0 implies t.up@[y] == s.up@[y] by {}
    assert forall|y: int| n + 1 <= y < p && #[trigger] s.hdr@[y] <= 0 implies t.down@[y] == s.down@[y] by {}
    lemma_blocks_frame(s, t, n, p);
    reveal(OptArrays::hdrs_ok);
    let b = t.net(n);
    assert(t.up@[x] == p + 1);
    assert(t.down@[p] == x - 1);
    assert(t.hdr@[x] == -m);
    assert forall|y: int| p + 1 <= y < x implies #[trigger] b.hdr[y] > 0 by {
        assert(s.hdr@[y] > 0);
    }
    assert(b.block_before(p + 1, x));
    assert(b.block_after(p, x - 1));
    assert forall|w: int|
        n + 1 < w <= x && #[trigger] t.hdr@[w] <= 0 implies b.block_before(t.up@[w] as int, w) by {
        if w < x && w > p {
            assert(s.hdr@[w] > 0);
        }
    }
    assert forall|w: int|
        n + 1 <= w < x && #[trigger] t.hdr@[w] <= 0 implies b.block_after(w, t.down@[w] as int) by {
        if w < x && w > p {
            assert(s.hdr@[w] > 0);
        }
    }
    reveal(OptArrays::blocks_ok);
}

/// Close the option that follows spacer `p` with a spacer holding `-m`.
fn push_spacer(a: &mut OptArrays, n: Count, p: Link, m: Data)
    requires
        old(a).skeleton(n, p as int),
        1 <= m <= old(a).hdr@.len(),
        old(a).hdr@.len() + 1 < isize::MAX,
    ensures
        spacer_pushed(*old(a), *final(a), p as int, m),
        final(a).skeleton(n, old(a).hdr@.len() as int),
{
    let ghost s = *a;
    let x = a.hdr.len();
    a.down.set(p, x - 1);
    a.hdr.push(-m);
    a.up.push(p + 1);
    a.down.push(0);
    a.color.push(0);
    proof {
        lemma_push_spacer_hdrs(s, *a, n, p as int, m);
        lemma_push_spacer_blocks(s, *a, n, p as int, m);
    }
}

/// The entries of column `c` (item `c - 1`) among the options before
/// option `o` and the first `k` entries of option `o`, in order.
pub open spec fn col_entries(n: int, ss: Seq<Seq<(Count, Data)>>, c: int, o: int, k: int) -> Seq<int>
    decreases o, k,
{
    if k > 0 && 0 <= o < ss.len() && k <= ss[o].len() {
        col_entries(n, ss, c, o, k - 1) + if ss[o][k - 1].0 + 1 == c {
            seq![entry_at(n, ss, o, k - 1)]
        } else {
            Seq::empty()
        }
    } else if o > 0 && o <= ss.len() {
        col_entries(n, ss, c, o - 1, ss[o - 1].len() as int)
    } else {
        Seq::empty()
    }
}

/// Every column `c` of `1..=n` is the cycle `cols[c]` through its header,
/// and holds every entry of item `c`.
pub open spec fn cycles(s: Net, n: int, cols: Seq<Seq<int>>) -> bool {
    &&& cols.len() == n + 1
    &&& forall|c: int| 1 <= c <= n ==> column(s, c, #[trigger] cols[c])
    &&& forall|x: int, c: int| 1 <= c <= n && #[trigger] s.is_opt(x) && s.hdr[x] == c ==> #[trigger] cols[c].contains(x)
}

/// Every column `c` of the arrays is the cycle `cols[c]` through its
/// header, and holds every entry of item `c - 1`.
pub open spec fn columns_ok(a: OptArrays, n: Count, cols: Seq<Seq<int>>) -> bool {
    &&& cols.len() == n + 1
    &&& forall|c: int|
        1 <= c <= n ==> {
            &&& column(a.net(n), c, #[trigger] cols[c])
            &&& cols[c].len() + n + 2 <= a.hdr@.len()
        }
    &&& forall|x: int, c: int|
        1 <= c <= n && #[trigger] a.net(n).is_opt(x) && a.hdr@[x] == c ==> #[trigger] cols[c].contains(x)
}

/// The facts of appending entry `x` below node `q` of column `it`,
/// the header (`pos` is `-1`) or entry `pos` of it.
pub open spec fn push_at(s: OptArrays, t: OptArrays, n: Count, it: int, q: int, c: Data, cols: Seq<Seq<int>>, pos: int) -> bool {
    &&& columns_ok(s, n, cols)
    &&& 1 <= it <= n
    &&& -1 <= pos < cols[it].len()
    &&& pos == -1 ==> q == it
    &&& pos >= 0 ==> q == cols[it][pos]
    &&& entry_pushed(s, t, it, q, c)
}

/// Appending an entry leaves the other columns as they are.
#[verifier::spinoff_prover]
proof fn lemma_push_other_columns(
    s: OptArrays,
    t: OptArrays,
    n: Count,
    p: int,
    it: int,
    q: int,
    c: Data,
    cols: Seq<Seq<int>>,
    pos: int,
    cc: int,
)
    requires
        s.sizes_ok(n, p),
        push_at(s, t, n, it, q, c, cols, pos),
        1 <= cc <= n,
        cc != it,
    ensures
        column(t.net(n), cc, cols[cc]),
{
    let a = s.net(n);
    let b = t.net(n);
    let x = s.hdr@.len() as int;
    let l = cols[it];
    let qd = s.down@[q] as int;
    let m = cols[cc];
    assert(column(a, it, l));
    assert(column(a, cc, m));
    assert(qd == (if pos + 1 < l.len() {
        l[pos + 1]
    } else {
        it
    }));
    assert forall|j: int| 0 <= j < m.len() implies b.is_opt(#[trigger] m[j]) && b.hdr[m[j]] == cc by {
        assert(a.is_opt(m[j]) && a.hdr[m[j]] == cc);
    }
    assert forall|j: int| 0 <= j < m.len() implies #[trigger] m[j] != q && m[j] != qd by {
        assert(a.is_opt(m[j]) && a.hdr[m[j]] == cc);
        if pos >= 0 {
            assert(a.is_opt(l[pos]) && a.hdr[l[pos]] == it);
        }
        if pos + 1 < l.len() {
            assert(a.is_opt(l[pos + 1]) && a.hdr[l[pos + 1]] == it);
        }
    }
    assert forall|j: int| 0 <= j < m.len() implies b.down[#[trigger] m[j]] == (if j + 1 < m.len() {
        m[j + 1]
    } else {
        cc
    }) && b.up[m[j]] == (if j > 0 {
        m[j - 1]
    } else {
        cc
    }) by {}
}

/// The links after appending entry `x` below `q`, whose successor was
/// `qd`.
proof fn lemma_pushed_links(s: OptArrays, t: OptArrays, n: Count, it: int, q: int, c: Data)
    requires
        entry_pushed(s, t, it, q, c),
        s.up@.len() == s.hdr@.len(),
        s.down@.len() == s.hdr@.len(),
        0 <= q < s.hdr@.len(),
        0 <= s.down@[q] < s.hdr@.len(),
        0 <= it < s.hdr@.len(),
        s.hdr@.len() < isize::MAX,
    ensures
        forall|y: int|
            0 <= y < s.hdr@.len() ==> #[trigger] t.down@[y] == (if y == q {
                s.hdr@.len() as Link
            } else {
                s.down@[y]
            }),
        forall|y: int|
            0 <= y < s.hdr@.len() ==> #[trigger] t.up@[y] == (if y == s.down@[q] {
                s.hdr@.len() as Link
            } else {
                s.up@[y]
            }),
        t.down@[s.hdr@.len() as int] == s.down@[q],
        t.up@[s.hdr@.len() as int] == q,
        forall|y: int| 0 <= y < s.hdr@.len() && y != it ==> #[trigger] t.hdr@[y] == s.hdr@[y],
        t.hdr@[s.hdr@.len() as int] == it,
        t.hdr@.len() == s.hdr@.len() + 1,
{
}

/// Appending an entry inserts it after `q` in its column's cycle.
#[verifier::spinoff_prover]
#[verifier::rlimit(100)]
proof fn lemma_push_own_column(
    s: OptArrays,
    t: OptArrays,
    n: Count,
    p: int,
    it: int,
    q: int,
    c: Data,
    cols: Seq<Seq<int>>,
    pos: int,
)
    requires
        s.sizes_ok(n, p),
        push_at(s, t, n, it, q, c, cols, pos),
    ensures
        column(t.net(n), it, cols[it].insert(pos + 1, s.hdr@.len() as int)),
{
    let a = s.net(n);
    let b = t.net(n);
    let x = s.hdr@.len() as int;
    let l = cols[it];
    let l2 = l.insert(pos + 1, x);
    let qd = s.down@[q] as int;
    assert(column(a, it, l));
    assert(qd == (if pos + 1 < l.len() {
        l[pos + 1]
    } else {
        it
    }));
    assert forall|j: int| 0 <= j < l.len() implies #[trigger] l[j] < x && a.is_opt(l[j]) && a.hdr[l[j]]
        == it by {
        assert(a.is_opt(l[j]));
    }
    lemma_pushed_links(s, t, n, it, q, c);
    assert forall|j: int| 0 <= j < l2.len() implies b.is_opt(#[trigger] l2[j]) && b.hdr[l2[j]] == it by {
        if j < pos + 1 {
            assert(l2[j] == l[j]);
        } else if j > pos + 1 {
            assert(l2[j] == l[j - 1]);
        }
    }
    assert forall|i: int, j: int| 0 <= i < j < l2.len() implies #[trigger] l2[i] != #[trigger] l2[j] by {
        if i < pos + 1 && j < pos + 1 {
            assert(l2[i] == l[i] && l2[j] == l[j]);
        } else if i < pos + 1 && j > pos + 1 {
            assert(l2[i] == l[i] && l2[j] == l[j - 1]);
        } else if i > pos + 1 {
            assert(l2[i] == l[i - 1] && l2[j] == l[j - 1]);
        } else if i < pos + 1 {
            assert(l2[i] == l[i]);
        } else {
            assert(l2[j] == l[j - 1]);
        }
    }
    assert forall|j: int| 0 <= j < l2.len() implies b.down[#[trigger] l2[j]] == (if j + 1 < l2.len() {
        l2[j + 1]
    } else {
        it
    }) by {
        if j < pos {
            assert(l2[j] == l[j] && l2[j + 1] == l[j + 1]);
            assert(l[j] != l[pos]);
        } else if j == pos {
            assert(l2[j] == q && l2[j + 1] == x);
        } else if j == pos + 1 {
            assert(l2[j] == x);
            if j + 1 < l2.len() {
                assert(l2[j + 1] == l[pos + 1]);
            }
        } else {
            assert(l2[j] == l[j - 1]);
            if pos >= 0 {
                assert(l[j - 1] != l[pos]);
            }
            if j + 1 < l2.len() {
                assert(l2[j + 1] == l[j]);
            }
        }
    }
    assert forall|j: int| 0 <= j < l2.len() implies b.up[#[trigger] l2[j]] == (if j > 0 {
        l2[j - 1]
    } else {
        it
    }) by {
        if j < pos + 1 {
            assert(l2[j] == l[j]);
            if pos + 1 < l.len() {
                assert(l[j] != l[pos + 1]);
            }
            if j > 0 {
                assert(l2[j - 1] == l[j - 1]);
            }
        } else if j == pos + 1 {
            assert(l2[j] == x);
            if j > 0 {
                assert(l2[j - 1] == l[pos]);
            }
        } else if j == pos + 2 {
            assert(l2[j] == l[pos + 1] && l2[j - 1] == x);
        } else {
            assert(l2[j] == l[j - 1] && l2[j - 1] == l[j - 2]);
            assert(l[j - 1] != l[pos + 1]);
        }
    }
    if pos == -1 {
        assert(b.down[it] == x);
    } else {
        assert(b.down[it] == a.down[it]);
        assert(l2[0] == l[0]);
    }
    if qd == it {
        assert(b.up[it] == x);
        assert(l2.last() == x);
    } else {
        assert(b.up[it] == a.up[it]);
        assert(l2.last() == l.last());
    }
}

/// Appending an entry below node `q` of its column, the header (`pos`
/// is `-1`) or entry `pos` of the column, inserts it after `q` in the
/// column's cycle.
proof fn lemma_push_entry_columns(
    s: OptArrays,
    t: OptArrays,
    n: Count,
    p: int,
    it: int,
    q: int,
    c: Data,
    cols: Seq<Seq<int>>,
    pos: int,
)
    requires
        s.sizes_ok(n, p),
        push_at(s, t, n, it, q, c, cols, pos),
    ensures
        columns_ok(t, n, cols.update(it, cols[it].insert(pos + 1, s.hdr@.len() as int))),
{
    let a = s.net(n);
    let b = t.net(n);
    let x = s.hdr@.len() as int;
    let l = cols[it];
    let l2 = l.insert(pos + 1, x);
    let cols2 = cols.update(it, l2);
    lemma_push_own_column(s, t, n, p, it, q, c, cols, pos);
    assert forall|cc: int| 1 <= cc <= n implies {
        &&& column(b, cc, #[trigger] cols2[cc])
        &&& cols2[cc].len() + n + 2 <= t.hdr@.len()
    } by {
        if cc != it {
            lemma_push_other_columns(s, t, n, p, it, q, c, cols, pos, cc);
        }
    }
    assert forall|y: int, cc: int|
        1 <= cc <= n && #[trigger] b.is_opt(y) && t.hdr@[y] == cc implies #[trigger] cols2[cc].contains(y) by {
        if y == x {
            assert(l2[pos + 1] == x);
        } else {
            assert(a.is_opt(y) && s.hdr@[y] == cc);
            assert(cols[cc].contains(y));
            if cc == it {
                let j = choose|j: int| 0 <= j < l.len() && l[j] == y;
                if j < pos + 1 {
                    assert(l2[j] == y);
                } else {
                    assert(l2[j + 1] == y);
                }
            }
        }
    }
}

/// Closing an option leaves every column as it is.
proof fn lemma_push_spacer_columns(s: OptArrays, t: OptArrays, n: Count, p: int, m: Data, cols: Seq<Seq<int>>)
    requires
        s.sizes_ok(n, p),
        columns_ok(s, n, cols),
        1 <= m,
        spacer_pushed(s, t, p, m),
    ensures
        columns_ok(t, n, cols),
{
    let a = s.net(n);
    let b = t.net(n);
    assert forall|cc: int| 1 <= cc <= n implies {
        &&& column(b, cc, #[trigger] cols[cc])
        &&& cols[cc].len() + n + 2 <= t.hdr@.len()
    } by {
        let l = cols[cc];
        assert(column(a, cc, l));
        assert forall|j: int| 0 <= j < l.len() implies b.is_opt(#[trigger] l[j]) && b.hdr[l[j]] == cc
            && l[j] != p by {
            assert(a.is_opt(l[j]) && a.hdr[l[j]] == cc);
        }
        assert(cc != p);
        assert forall|j: int| 0 <= j < l.len() implies b.down[#[trigger] l[j]] == (if j + 1 < l.len() {
            l[j + 1]
        } else {
            cc
        }) && b.up[l[j]] == (if j > 0 {
            l[j - 1]
        } else {
            cc
        }) by {}
    }
    assert forall|y: int, cc: int|
        1 <= cc <= n && #[trigger] b.is_opt(y) && t.hdr@[y] == cc implies #[trigger] cols[cc].contains(y) by {
        assert(a.is_opt(y));
    }
}

/// The node reached from `j` after `k` steps along the `down` links.
pub open spec fn down_from(down: Seq<Link>, j: int, k: nat) -> int
    decreases k,
{
    if k == 0 {
        j
    } else {
        down[down_from(down, j, (k - 1) as nat)] as int
    }
}

/// Walk `steps` entries down column `it` from its header.
fn walk_down(a: &OptArrays, n: Count, it: Link, steps: u32) -> (q: Link)
    requires
        a.net(n).closed(),
        1 <= it <= n < a.hdr@.len(),
        a.down@.len() == a.hdr@.len(),
    ensures
        q == down_from(a.down@, it as int, steps as nat),
        a.net(n).is_col(q as int),
        a.net(n).col_of(q as int) == it,
{
    let ghost s = a.net(n);
    let mut j = it;
    let mut k: u32 = 0;
    while k < steps
        invariant
            s == a.net(n),
            s.closed(),
            1 <= it <= n < a.hdr@.len(),
            a.down@.len() == a.hdr@.len(),
            s.is_col(j as int),
            s.col_of(j as int) == it,
            k <= steps,
            j == down_from(a.down@, it as int, k as nat),
        decreases steps - k,
    {
        proof {
            reveal(Net::closed);
        }
        assert(s.is_col(s.down[j as int] as int));
        j = a.down[j];
        k += 1;
    }
    j
}

/// The spacer before each option is at least node `n + 1`, and the nodes
/// of option `j` come before the spacer of any later option.
pub proof fn lemma_option_bounds<T>(n: int, os: Seq<Seq<T>>, j: int, o: int)
    requires
        0 <= j < o <= os.len(),
    ensures
        n + 1 <= base(n, os, j),
        base(n, os, j + 1) == spacer_after(n, os, j),
        spacer_after(n, os, j) <= base(n, os, o),
{
    lemma_node_count_ge(n, os.take(j));
    lemma_base_step(n, os, j);
    lemma_base_mono(n, os, j + 1, o);
}

/// The options before option `o` are in place in `a`: their entries, their
/// spacers and the spacers' links.
#[verifier::opaque]
pub open spec fn options_done(n: Count, os: Seq<Seq<(Count, Data)>>, o: int, a: OptArrays) -> bool {
    &&& forall|j: int| 0 <= j <= o ==> #[trigger] a.hdr@[base(n as int, os, j)] <= 0
    &&& forall|j: int, k: int|
        0 <= j < o && 0 <= k < os[j].len() ==> {
            &&& a.hdr@[#[trigger] entry_at(n as int, os, j, k)] == os[j][k].0 + 1
            &&& a.color@[entry_at(n as int, os, j, k)] == os[j][k].1
        }
    &&& forall|j: int|
        0 <= j < o ==> {
            &&& a.hdr@[#[trigger] spacer_after(n as int, os, j)] == -(j + 1)
            &&& a.up@[spacer_after(n as int, os, j)] == base(n as int, os, j) + 1
            &&& a.color@[spacer_after(n as int, os, j)] == 0
            &&& a.down@[base(n as int, os, j)] == spacer_after(n as int, os, j) - 1
        }
}

/// Changes past the spacer before option `o`, and to column nodes, keep
/// the options before `o` in place.
proof fn lemma_done_keep(n: Count, os: Seq<Seq<(Count, Data)>>, o: int, a0: OptArrays, a: OptArrays)
    requires
        0 <= o <= os.len(),
        options_done(n, os, o, a0),
        forall|y: int|
            n + 1 <= y <= base(n as int, os, o) ==> #[trigger] a.hdr@[y] == a0.hdr@[y]
                && a.color@[y] == a0.color@[y],
        forall|y: int|
            n + 1 <= y <= base(n as int, os, o) && #[trigger] a0.hdr@[y] <= 0 ==> a.up@[y]
                == a0.up@[y] && a.down@[y] == a0.down@[y],
    ensures
        options_done(n, os, o, a),
{
    reveal(options_done);
    assert forall|j: int| 0 <= j <= o implies #[trigger] a.hdr@[base(n as int, os, j)] <= 0 by {
        if j < o {
            lemma_option_bounds(n as int, os, j, o);
        } else {
            lemma_node_count_ge(n as int, os.take(j));
        }
        assert(a0.hdr@[base(n as int, os, j)] <= 0);
    }
    assert forall|j: int, k: int|
        0 <= j < o && 0 <= k < os[j].len() implies {
            &&& a.hdr@[#[trigger] entry_at(n as int, os, j, k)] == os[j][k].0 + 1
            &&& a.color@[entry_at(n as int, os, j, k)] == os[j][k].1
        } by {
        lemma_option_bounds(n as int, os, j, o);
        assert(a0.hdr@[entry_at(n as int, os, j, k)] == os[j][k].0 + 1);
    }
    assert forall|j: int|
        0 <= j < o implies {
            &&& a.hdr@[#[trigger] spacer_after(n as int, os, j)] == -(j + 1)
            &&& a.up@[spacer_after(n as int, os, j)] == base(n as int, os, j) + 1
            &&& a.color@[spacer_after(n as int, os, j)] == 0
            &&& a.down@[base(n as int, os, j)] == spacer_after(n as int, os, j) - 1
        } by {
        lemma_option_bounds(n as int, os, j, o);
        let sj = spacer_after(n as int, os, j);
        let bj = base(n as int, os, j);
        assert(a0.hdr@[sj] == -(j + 1));
        assert(a0.hdr@[bj] <= 0);
        assert(n + 1 <= bj < sj <= base(n as int, os, o));
        assert(a.hdr@[sj] == a0.hdr@[sj]);
        assert(a.color@[sj] == a0.color@[sj]);
        assert(a.up@[sj] == a0.up@[sj]);
        assert(a.down@[bj] == a0.down@[bj]);
    }
}

/// Closing option `o` puts it in place.
#[verifier::rlimit(50)]
proof fn lemma_done_step(n: Count, os: Seq<Seq<(Count, Data)>>, o: int, a1: OptArrays, a: OptArrays)
    requires
        0 <= o < os.len(),
        options_done(n, os, o, a1),
        a1.hdr@.len() == spacer_after(n as int, os, o),
        a1.hdr@.len() < isize::MAX,
        o + 1 < isize::MAX,
        forall|k: int|
            0 <= k < os[o].len() ==> #[trigger] a1.hdr@[entry_at(n as int, os, o, k)] == os[o][k].0
                + 1 && a1.color@[entry_at(n as int, os, o, k)] == os[o][k].1,
        spacer_pushed(a1, a, base(n as int, os, o), (o + 1) as Data),
        a1.up@.len() == a1.hdr@.len(),
        a1.down@.len() == a1.hdr@.len(),
        a1.color@.len() == a1.hdr@.len(),
    ensures
        options_done(n, os, o + 1, a),
{
    reveal(options_done);
    lemma_option_bounds(n as int, os, o, o + 1);
    let p = base(n as int, os, o);
    let x = a1.hdr@.len() as int;
    assert(a.hdr@.len() == x + 1);
    assert(a.hdr@[x] == -(o + 1));
    assert(a.up@[x] == p + 1);
    assert(a.color@[x] == 0);
    assert(a.down@[p] == x - 1);
    assert(base(n as int, os, o + 1) == x);
    assert forall|y: int| 0 <= y < x implies #[trigger] a.hdr@[y] == a1.hdr@[y] && a.color@[y]
        == a1.color@[y] && a.up@[y] == a1.up@[y] by {}
    assert forall|y: int| 0 <= y < x && y != p implies #[trigger] a.down@[y] == a1.down@[y] by {}
    assert forall|j: int| 0 <= j <= o + 1 implies #[trigger] a.hdr@[base(n as int, os, j)] <= 0 by {
        if j < o {
            lemma_option_bounds(n as int, os, j, o);
            assert(a1.hdr@[base(n as int, os, j)] <= 0);
        } else if j == o {
            assert(a1.hdr@[base(n as int, os, j)] <= 0);
        }
    }
    assert forall|j: int, k: int|
        0 <= j < o + 1 && 0 <= k < os[j].len() implies {
            &&& a.hdr@[#[trigger] entry_at(n as int, os, j, k)] == os[j][k].0 + 1
            &&& a.color@[entry_at(n as int, os, j, k)] == os[j][k].1
        } by {
        if j < o {
            lemma_option_bounds(n as int, os, j, o);
            assert(a1.hdr@[entry_at(n as int, os, j, k)] == os[j][k].0 + 1);
        } else {
            assert(a1.hdr@[entry_at(n as int, os, o, k)] == os[o][k].0 + 1);
        }
    }
    assert forall|j: int|
        0 <= j < o + 1 implies {
            &&& a.hdr@[#[trigger] spacer_after(n as int, os, j)] == -(j + 1)
            &&& a.up@[spacer_after(n as int, os, j)] == base(n as int, os, j) + 1
            &&& a.color@[spacer_after(n as int, os, j)] == 0
            &&& a.down@[base(n as int, os, j)] == spacer_after(n as int, os, j) - 1
        } by {
        if j < o {
            lemma_option_bounds(n as int, os, j, o);
            assert(a1.hdr@[spacer_after(n as int, os, j)] == -(j + 1));
            assert(a1.hdr@[base(n as int, os, j)] <= 0);
        }
    }
}

/// What [`build_options`] makes of the options `os` over `n` items: node
/// `0` and node `n + 1` are empty, header `c` counts the entries of item
/// `c - 1`, entry `k` of option `j` holds its item plus one and its color,
/// the spacer after option `j` holds `-(j + 1)` and links up to the
/// option's first entry, the spacer before it links down to its last
/// entry, and the last spacer links down to node `0`.
pub open spec fn options_shape(
    n: Count,
    os: Seq<Seq<(Count, Data)>>,
    hdr: Seq<Data>,
    up: Seq<Link>,
    down: Seq<Link>,
) -> bool {
    &&& hdr.len() == node_count(n as int, os)
    &&& up.len() == hdr.len()
    &&& down.len() == hdr.len()
    &&& hdr[0] == 0 && up[0] == 0 && down[0] == 0
    &&& hdr[n + 1] == 0 && up[n + 1] == 0
    &&& down[hdr.len() - 1] == 0
    &&& forall|c: int| 1 <= c <= n ==> #[trigger] hdr[c] == occurrences(os, c - 1)
    &&& forall|j: int, k: int|
        0 <= j < os.len() && 0 <= k < os[j].len() ==> hdr[#[trigger] entry_at(n as int, os, j, k)]
            == os[j][k].0 + 1
    &&& forall|j: int|
        0 <= j < os.len() ==> {
            &&& hdr[#[trigger] spacer_after(n as int, os, j)] == -(j + 1)
            &&& up[spacer_after(n as int, os, j)] == base(n as int, os, j) + 1
            &&& down[base(n as int, os, j)] == spacer_after(n as int, os, j) - 1
        }
}

/// The colors [`build_options`] gives: each entry the color of its item in
/// its option, every other node `0`.
pub open spec fn options_colors(n: Count, os: Seq<Seq<(Count, Data)>>, color: Seq<Data>) -> bool {
    &&& color.len() == node_count(n as int, os)
    &&& color[0] == 0 && color[n + 1] == 0
    &&& forall|c: int| 1 <= c <= n ==> #[trigger] color[c] == 0
    &&& forall|j: int, k: int|
        0 <= j < os.len() && 0 <= k < os[j].len() ==> color[#[trigger] entry_at(n as int, os, j, k)]
            == os[j][k].1
    &&& forall|j: int| 0 <= j < os.len() ==> color[#[trigger] spacer_after(n as int, os, j)] == 0
}

/// The options as sequences of (item, color) pairs.
pub open spec fn opt_seqs(os: Seq<Vec<(Count, Data)>>) -> Seq<Seq<(Count, Data)>> {
    os.map_values(|v: Vec<(Count, Data)>| v@)
}

/// The state while option `o` is being built, `k` of its entries in: the
/// nodes `0` and `n + 1` are untouched, headers count the entries so far,
/// the first `k` entries are in place, and nothing up to the spacer before
/// option `o` changed since `a_start`, but for the links of column nodes.
#[verifier::opaque]
pub open spec fn progress(
    n: Count,
    ss: Seq<Seq<(Count, Data)>>,
    o: int,
    k: int,
    a_start: OptArrays,
    a: OptArrays,
) -> bool {
    let p = base(n as int, ss, o);
    &&& a.hdr@[0] == 0 && a.up@[0] == 0 && a.down@[0] == 0 && a.color@[0] == 0
    &&& a.up@[n + 1] == 0 && a.color@[n + 1] == 0
    &&& a.down@[p] == 0
    &&& forall|c: int|
        1 <= c <= n ==> #[trigger] a.hdr@[c] == occurrences(ss.take(o), c - 1) + count_in(
            ss[o].take(k),
            c - 1,
        ) && a.color@[c] == 0
    &&& forall|kk: int|
        0 <= kk < k ==> #[trigger] a.hdr@[p + 1 + kk] == ss[o][kk].0 + 1 && a.color@[p + 1 + kk]
            == ss[o][kk].1
    &&& forall|y: int|
        n + 1 <= y <= p ==> #[trigger] a.hdr@[y] == a_start.hdr@[y] && a.color@[y]
            == a_start.color@[y]
    &&& forall|y: int|
        n + 1 <= y <= p && #[trigger] a_start.hdr@[y] <= 0 ==> a.up@[y] == a_start.up@[y]
            && a.down@[y] == a_start.down@[y]
}

/// Adding entry `k` of option `o`.
#[verifier::rlimit(30)]
proof fn lemma_progress_step(
    n: Count,
    ss: Seq<Seq<(Count, Data)>>,
    o: int,
    k: int,
    a_start: OptArrays,
    a0: OptArrays,
    a: OptArrays,
    it: int,
    q: int,
    c: Data,
)
    requires
        0 <= o < ss.len(),
        0 <= k < ss[o].len(),
        it == ss[o][k].0 + 1,
        1 <= it <= n,
        c == ss[o][k].1,
        a0.sizes_ok(n, base(n as int, ss, o)),
        0 <= a0.hdr@[it] < a0.hdr@.len(),
        a0.hdr@.len() == base(n as int, ss, o) + 1 + k,
        a0.net(n).is_col(q),
        a0.net(n).is_col(a0.down@[q] as int),
        entry_pushed(a0, a, it, q, c),
        progress(n, ss, o, k, a_start, a0),
    ensures
        progress(n, ss, o, k + 1, a_start, a),
{
    reveal(progress);
    let p = base(n as int, ss, o);
    let s0 = a0.net(n);
    assert(ss[o].take(k + 1).drop_last() =~= ss[o].take(k));
    assert(ss[o].take(k + 1).last() == ss[o][k]);
    assert(!s0.is_col(p));
    assert(!s0.is_col(n + 1));
    assert(!s0.is_col(0));
    assert forall|c2: int| 1 <= c2 <= n implies #[trigger] a.hdr@[c2] == occurrences(
        ss.take(o),
        c2 - 1,
    ) + count_in(ss[o].take(k + 1), c2 - 1) && a.color@[c2] == 0 by {
        assert(a0.hdr@[c2] == occurrences(ss.take(o), c2 - 1) + count_in(ss[o].take(k), c2 - 1));
    }
    assert forall|kk: int| 0 <= kk < k + 1 implies #[trigger] a.hdr@[p + 1 + kk] == ss[o][kk].0
        + 1 && a.color@[p + 1 + kk] == ss[o][kk].1 by {
        if kk < k {
            assert(a0.hdr@[p + 1 + kk] == ss[o][kk].0 + 1);
        }
    }
    assert forall|y: int| n + 1 <= y <= p implies #[trigger] a.hdr@[y] == a_start.hdr@[y]
        && a.color@[y] == a_start.color@[y] by {
        assert(a0.hdr@[y] == a_start.hdr@[y]);
    }
    assert forall|y: int| n + 1 <= y <= p && #[trigger] a_start.hdr@[y] <= 0 implies a.up@[y]
        == a_start.up@[y] && a.down@[y] == a_start.down@[y] by {
        assert(a0.hdr@[y] == a_start.hdr@[y]);
        assert(!s0.is_col(y));
    }
}

/// Closing option `o` once its entries are in.
#[verifier::rlimit(30)]
#[verifier::spinoff_prover]
proof fn lemma_progress_close(
    n: Count,
    ss: Seq<Seq<(Count, Data)>>,
    o: int,
    a_start: OptArrays,
    a1: OptArrays,
    a: OptArrays,
)
    requires
        0 <= o < ss.len(),
        node_count(n as int, ss) < isize::MAX,
        a_start.hdr@.len() == base(n as int, ss, o) + 1,
        a1.sizes_ok(n, base(n as int, ss, o)),
        a1.hdr@.len() == base(n as int, ss, o) + 1 + ss[o].len(),
        progress(n, ss, o, ss[o].len() as int, a_start, a1),
        options_done(n, ss, o, a_start),
        spacer_pushed(a1, a, base(n as int, ss, o), (o + 1) as Data),
    ensures
        progress(n, ss, o + 1, 0, a, a),
        options_done(n, ss, o + 1, a),
        base(n as int, ss, o + 1) == a1.hdr@.len(),
{
    reveal(progress);
    let p = base(n as int, ss, o);
    lemma_option_bounds(n as int, ss, o, o + 1);
    lemma_base_mono(n as int, ss, o + 1, ss.len() as int);
    assert(ss.take(ss.len() as int) =~= ss);
    lemma_node_count_ge(n as int, ss.take(o));
    assert(ss[o].take(ss[o].len() as int) =~= ss[o]);
    assert(ss.take(o + 1).drop_last() =~= ss.take(o));
    assert(ss.take(o + 1).last() == ss[o]);
    assert(ss[o + 1].take(0) =~= Seq::<(Count, Data)>::empty());
    assert forall|y: int| n + 1 <= y <= p implies #[trigger] a1.hdr@[y] == a_start.hdr@[y]
        && a1.color@[y] == a_start.color@[y] by {}
    assert forall|y: int| n + 1 <= y <= p && #[trigger] a_start.hdr@[y] <= 0 implies a1.up@[y]
        == a_start.up@[y] && a1.down@[y] == a_start.down@[y] by {}
    lemma_done_keep(n, ss, o, a_start, a1);
    assert forall|kk: int| 0 <= kk < ss[o].len() implies #[trigger] a1.hdr@[entry_at(
        n as int,
        ss,
        o,
        kk,
    )] == ss[o][kk].0 + 1 && a1.color@[entry_at(n as int, ss, o, kk)] == ss[o][kk].1 by {
        assert(a1.hdr@[p + 1 + kk] == ss[o][kk].0 + 1);
    }
    lemma_done_step(n, ss, o, a1, a);
    let x = a1.hdr@.len() as int;
    assert forall|c2: int| 1 <= c2 <= n implies #[trigger] a.hdr@[c2] == occurrences(
        ss.take(o + 1),
        c2 - 1,
    ) + count_in(ss[o + 1].take(0), c2 - 1) && a.color@[c2] == 0 by {
        assert(a1.hdr@[c2] == occurrences(ss.take(o), c2 - 1) + count_in(ss[o].take(ss[o].len() as int), c2 - 1));
    }
    assert(a.down@[x] == 0);
    assert(a.hdr@[0] == a1.hdr@[0] && a.up@[0] == a1.up@[0] && a.down@[0] == a1.down@[0]);
    assert(a.up@[n + 1] == a1.up@[n + 1] && a.color@[n + 1] == a1.color@[n + 1]);
}

/// The state after the last option is the shape of all options.
proof fn lemma_progress_shape(n: Count, ss: Seq<Seq<(Count, Data)>>, a: OptArrays)
    requires
        a.hdr@.len() == node_count(n as int, ss),
        a.sizes_ok(n, a.hdr@.len() - 1),
        progress(n, ss, ss.len() as int, 0, a, a),
        options_done(n, ss, ss.len() as int, a),
        base(n as int, ss, ss.len() as int) == a.hdr@.len() - 1,
    ensures
        options_shape(n, ss, a.hdr@, a.up@, a.down@),
        options_colors(n, ss, a.color@),
{
    reveal(progress);
    reveal(options_done);
    assert(ss.take(ss.len() as int) =~= ss);
    assert forall|c: int| 1 <= c <= n implies #[trigger] a.hdr@[c] == occurrences(ss, c - 1)
        && a.color@[c] == 0 by {
        assert(a.hdr@[c] == occurrences(ss.take(ss.len() as int), c - 1) + count_in(
            ss[ss.len() as int].take(0),
            c - 1,
        ));
    }
    assert forall|c: int| 1 <= c <= n implies #[trigger] a.color@[c] == 0 by {
        assert(a.hdr@[c] == occurrences(ss.take(ss.len() as int), c - 1) + count_in(
            ss[ss.len() as int].take(0),
            c - 1,
        ));
    }
    let l = a.hdr@.len() - 1;
    assert(a.down@[l] == 0);
    assert(a.hdr@[0] == 0 && a.up@[0] == 0 && a.down@[0] == 0 && a.color@[0] == 0);
    assert(a.hdr@[n + 1] == 0 && a.up@[n + 1] == 0 && a.color@[n + 1] == 0);
    assert(forall|j: int, k: int|
        0 <= j < ss.len() && 0 <= k < ss[j].len() ==> {
            &&& a.hdr@[#[trigger] entry_at(n as int, ss, j, k)] == ss[j][k].0 + 1
            &&& a.color@[entry_at(n as int, ss, j, k)] == ss[j][k].1
        });
}

/// The nodes after the headers are laid out.
proof fn lemma_progress_init(n: Count, ss: Seq<Seq<(Count, Data)>>, a: OptArrays)
    requires
        n + 2 < isize::MAX,
        a.hdr@.len() == n + 2,
        a.up@.len() == n + 2,
        a.down@.len() == n + 2,
        a.color@.len() == n + 2,
        forall|j: int| 0 <= j < n + 2 ==> #[trigger] a.hdr@[j] == 0,
        forall|j: int| 0 <= j < n + 2 ==> #[trigger] a.color@[j] == 0,
        forall|j: int| 0 <= j < n + 2 ==> #[trigger] a.down@[j] == a.up@[j],
        forall|j: int| 0 <= j < n + 2 && 1 <= j <= n ==> #[trigger] a.up@[j] == j,
        forall|j: int| 0 <= j < n + 2 && !(1 <= j <= n) ==> #[trigger] a.up@[j] == 0,
    ensures
        a.skeleton(n, n + 1),
        base(n as int, ss, 0) == n + 1,
        progress(n, ss, 0, 0, a, a),
        options_done(n, ss, 0, a),
{
    reveal(Net::closed);
    reveal(OptArrays::hdrs_ok);
    reveal(OptArrays::blocks_ok);
    reveal(options_done);
    reveal(progress);
    let s = a.net(n);
    assert forall|x: int| #[trigger] s.is_col(x) implies {
        &&& s.is_col(s.up[x] as int)
        &&& s.is_col(s.down[x] as int)
        &&& s.col_of(s.up[x] as int) == s.col_of(x)
        &&& s.col_of(s.down[x] as int) == s.col_of(x)
    } by {
        assert(a.hdr@[x] == 0);
        assert(a.up@[x] == x);
        assert(a.down@[x] == a.up@[x]);
    }
    assert(ss.take(0) =~= Seq::<Seq<(Count, Data)>>::empty());
    assert(ss[0].take(0) =~= Seq::<(Count, Data)>::empty());
    assert(a.hdr@[0] == 0 && a.color@[0] == 0);
    assert(a.up@[0] == 0);
    assert(a.down@[0] == a.up@[0]);
    assert(a.hdr@[n + 1] == 0 && a.color@[n + 1] == 0);
    assert(a.up@[n + 1] == 0);
    assert(a.down@[n + 1] == a.up@[n + 1]);
    assert forall|c: int| 1 <= c <= n implies #[trigger] a.hdr@[c] == occurrences(
        ss.take(0),
        c - 1,
    ) + count_in(ss[0].take(0), c - 1) && a.color@[c] == 0 by {}
}

/// Build the option nodes: headers `1..=n` start as empty columns; each
/// option becomes a block of entries, one per item (item `k` is column
/// `k + 1`), followed by a spacer holding minus the option's number. An
/// entry joins its column at the bottom, or with `OptOrder::Rnd` after a
/// randomly chosen entry of it; then no item may have `2^31` entries or
/// more, as the draws of the generator are below `2^31`.
pub fn build_options(n: Count, os: &[Vec<(Count, Data)>], order: OptOrder) -> (r: OptArrays)
    requires
        forall|o: int, k: int|
            0 <= o < os@.len() && 0 <= k < os@[o]@.len() ==> #[trigger] os@[o]@[k].0 < n,
        node_count(n as int, opt_seqs(os@)) < isize::MAX,
        order is Rnd ==> forall|c: int| 0 <= c < n ==> #[trigger] occurrences(opt_seqs(os@), c) < 0x8000_0000,
    ensures
        options_shape(n, opt_seqs(os@), r.hdr@, r.up@, r.down@),
        options_colors(n, opt_seqs(os@), r.color@),
        r.color@.len() == r.hdr@.len(),
        r.net(n).layout(),
        r.net(n).closed(),
        exists|cols: Seq<Seq<int>>| columns_ok(r, n, cols),
        order is Sequential ==> forall|c: int|
            1 <= c <= n ==> column(
                r.net(n),
                c,
                #[trigger] col_entries(n as int, opt_seqs(os@), c, os@.len() as int, 0),
            ),
{
    let ghost ss = opt_seqs(os@);
    let ghost seq_order = order is Sequential;
    let (rnd, mut rng) = match order {
        OptOrder::Sequential => (false, Rng::new(1)),
        OptOrder::Rnd(g) => (true, g),
    };
    let mut a = OptArrays { hdr: Vec::new(), up: Vec::new(), down: Vec::new(), color: Vec::new() };
    proof {
        lemma_node_count_ge(n as int, ss);
    }
    let mut i: usize = 0;
    while i < n + 2
        invariant
            n + 2 <= node_count(n as int, ss) < isize::MAX,
            i <= n + 2,
            a.hdr@.len() == i,
            a.up@.len() == i,
            a.down@.len() == i,
            a.color@.len() == i,
            forall|j: int| 0 <= j < i ==> #[trigger] a.hdr@[j] == 0,
            forall|j: int| 0 <= j < i ==> #[trigger] a.color@[j] == 0,
            forall|j: int| 0 <= j < i ==> #[trigger] a.down@[j] == a.up@[j],
            forall|j: int| 0 <= j < i && 1 <= j <= n ==> #[trigger] a.up@[j] == j,
            forall|j: int| 0 <= j < i && !(1 <= j <= n) ==> #[trigger] a.up@[j] == 0,
        decreases n + 2 - i,
    {
        let v = if 1 <= i && i <= n {
            i
        } else {
            0
        };
        a.hdr.push(0);
        a.up.push(v);
        a.down.push(v);
        a.color.push(0);
        i += 1;
    }
    proof {
        lemma_progress_init(n, ss, a);
    }
    let ghost mut cols: Seq<Seq<int>> = Seq::new((n + 1) as nat, |c: int| Seq::<int>::empty());
    proof {
        let b = a.net(n);
        assert forall|c: int| 1 <= c <= n implies {
            &&& column(a.net(n), c, #[trigger] cols[c])
            &&& cols[c].len() + n + 2 <= a.hdr@.len()
        } by {
            assert(b.down[c] == c && b.up[c] == c);
        }
        assert forall|x: int, c: int| 1 <= c <= n && #[trigger] a.net(n).is_opt(x) && a.hdr@[x] == c
            implies #[trigger] cols[c].contains(x) by {
            assert(a.hdr@[x] == 0);
        }
        assert forall|c: int| 1 <= c <= n implies #[trigger] cols[c] == col_entries(n as int, ss, c, 0, 0) by {}
    }
    let mut m: Data = 0;
    let mut p: Link = n + 1;
    let mut o: usize = 0;
    while o < os.len()
        invariant
            forall|oo: int, kk: int|
                0 <= oo < os@.len() && 0 <= kk < os@[oo]@.len() ==> #[trigger] os@[oo]@[kk].0 < n,
            ss == opt_seqs(os@),
            ss.len() == os@.len(),
            node_count(n as int, ss) < isize::MAX,
            ss.len() + n + 2 <= node_count(n as int, ss),
            o <= os@.len(),
            p == base(n as int, ss, o as int),
            a.hdr@.len() == p + 1,
            a.skeleton(n, p as int),
            m == o,
            progress(n, ss, o as int, 0, a, a),
            options_done(n, ss, o as int, a),
            columns_ok(a, n, cols),
            seq_order == !rnd,
            !rnd ==> forall|c: int| 1 <= c <= n ==> #[trigger] cols[c] == col_entries(n as int, ss, c, o as int, 0),
            rnd ==> forall|c: int| 0 <= c < n ==> #[trigger] occurrences(ss, c) < 0x8000_0000,
        decreases os@.len() - o,
    {
        let opt = &os[o];
        let ghost a_start = a;
        proof {
            lemma_option_bounds(n as int, ss, o as int, o + 1);
            lemma_base_mono(n as int, ss, o + 1, ss.len() as int);
            assert(ss.take(ss.len() as int) =~= ss);
        }
        let mut k: usize = 0;
        while k < opt.len()
            invariant
                forall|oo: int, kk: int|
                    0 <= oo < os@.len() && 0 <= kk < os@[oo]@.len() ==> #[trigger] os@[oo]@[kk].0
                        < n,
                ss == opt_seqs(os@),
                ss.len() == os@.len(),
                node_count(n as int, ss) < isize::MAX,
                0 <= o < os@.len(),
                opt == os@[o as int],
                opt@ == ss[o as int],
                rnd ==> forall|c: int| 0 <= c < n ==> #[trigger] occurrences(ss, c) < 0x8000_0000,
                p == base(n as int, ss, o as int),
                p + opt@.len() + 1 == spacer_after(n as int, ss, o as int),
                spacer_after(n as int, ss, o as int) + 1 <= node_count(n as int, ss),
                k <= opt@.len(),
                a.hdr@.len() == p + 1 + k,
                a.skeleton(n, p as int),
                a_start.hdr@.len() == p + 1,
                progress(n, ss, o as int, k as int, a_start, a),
                columns_ok(a, n, cols),
                !rnd ==> forall|c: int| 1 <= c <= n ==> #[trigger] cols[c] == col_entries(n as int, ss, c, o as int, k as int),
            decreases opt@.len() - k,
        {
            let ghost a0 = a;
            let (item, c) = opt[k];
            let it = item + 1;
            proof {
                assert(os@[o as int]@[k as int].0 < n);
                reveal(Net::closed);
                assert(a.net(n).is_col(it as int));
                reveal(OptArrays::hdrs_ok);
                assert(0 <= a.hdr@[it as int] < a.hdr@.len());
            }
            let q = if rnd {
                proof {
                    assert(ss[o as int][k as int] == opt@[k as int]);
                    lemma_column_len(n, ss, o as int, k as int, a_start, a, item as int);
                }
                let len_i = a.hdr[it] + 1;
                let steps = rng.uniform(len_i as u32);
                walk_down(&a, n, it, steps)
            } else {
                proof {
                    assert(a.net(n).is_col(a.up@[it as int] as int));
                }
                a.up[it]
            };
            let ghost pos: int = if q == it {
                -1
            } else {
                choose|j: int| 0 <= j < cols[it as int].len() && cols[it as int][j] == q
            };
            proof {
                let b = a0.net(n);
                let l = cols[it as int];
                assert(column(b, it as int, l));
                if q != it {
                    reveal(OptArrays::hdrs_ok);
                    assert(b.is_opt(q as int) && a0.hdr@[q as int] == it);
                    assert(cols[it as int].contains(q as int));
                }
                if !rnd {
                    if l.len() > 0 {
                        assert(q == l.last());
                        assert(l[l.len() - 1] == q);
                    }
                }
            }
            push_entry(&mut a, n, p, it, q, c);
            proof {
                lemma_progress_step(n, ss, o as int, k as int, a_start, a0, a, it as int, q as int, c);
                let old_cols = cols;
                lemma_push_entry_columns(a0, a, n, p as int, it as int, q as int, c, cols, pos);
                cols = cols.update(it as int, cols[it as int].insert(pos + 1, a0.hdr@.len() as int));
                if !rnd {
                    assert(a0.hdr@.len() == entry_at(n as int, ss, o as int, k as int));
                    assert forall|cc: int| 1 <= cc <= n implies #[trigger] cols[cc] == col_entries(
                        n as int,
                        ss,
                        cc,
                        o as int,
                        k + 1,
                    ) by {
                        assert(ss[o as int][k as int] == opt@[k as int]);
                        if cc == it {
                            let l = old_cols[cc];
                            assert(pos + 1 == l.len());
                            assert(l.insert(l.len() as int, a0.hdr@.len() as int) =~= l.push(
                                a0.hdr@.len() as int,
                            ));
                        } else {
                            assert(col_entries(n as int, ss, cc, o as int, k + 1) =~= col_entries(
                                n as int,
                                ss,
                                cc,
                                o as int,
                                k as int,
                            ));
                        }
                    }
                }
            }
            k += 1;
        }
        let ghost a1 = a;
        proof {
            lemma_node_count_ge(n as int, ss.take(o as int));
        }
        m += 1;
        push_spacer(&mut a, n, p, m);
        proof {
            lemma_progress_close(n, ss, o as int, a_start, a1, a);
            lemma_push_spacer_columns(a1, a, n, p as int, m, cols);
            if !rnd {
                assert forall|cc: int| 1 <= cc <= n implies #[trigger] cols[cc] == col_entries(
                    n as int,
                    ss,
                    cc,
                    o + 1,
                    0,
                ) by {
                    assert(opt@.len() == ss[o as int].len());
                }
            }
        }
        p = p + k + 1;
        o += 1;
    }
    proof {
        assert(ss.take(ss.len() as int) =~= ss);
        lemma_skeleton_layout(a, n);
        lemma_progress_shape(n, ss, a);
        if seq_order {
            assert forall|c: int| 1 <= c <= n implies column(
                a.net(n),
                c,
                #[trigger] col_entries(n as int, opt_seqs(os@), c, os@.len() as int, 0),
            ) by {
                assert(column(a.net(n), c, cols[c]));
            }
        }
    }
    a
}

/// The left link of item node `i` after linking `n` items of which the
/// first `n1` are primary: primary items form a cycle through node `0`,
/// secondary items a cycle through node `n + 1`.
pub open spec fn init_left(n1: int, n: int, i: int) -> int {
    if i == 0 {
        n1
    } else if i == n1 + 1 {
        n + 1
    } else if i == n + 1 {
        n
    } else {
        i - 1
    }
}

/// The right link of item node `i` after linking.
pub open spec fn init_right(n1: int, n: int, i: int) -> int {
    if i == n1 {
        0
    } else if i == n + 1 {
        n1 + 1
    } else if i == n {
        n + 1
    } else {
        i + 1
    }
}

/// Link `n` items, the first `n1` of them primary, into their two cycles.
pub fn item_links(n1: Count, n: Count) -> (r: (Vec<Link>, Vec<Link>))
    requires
        n1 <= n,
        n < isize::MAX,
    ensures
        r.0@.len() == n + 2,
        r.1@.len() == n + 2,
        forall|i: int| 0 <= i < n + 2 ==> #[trigger] r.0@[i] == init_left(n1 as int, n as int, i),
        forall|i: int| 0 <= i < n + 2 ==> #[trigger] r.1@[i] == init_right(n1 as int, n as int, i),
{
    let mut left: Vec<Link> = Vec::new();
    let mut right: Vec<Link> = Vec::new();
    let mut i: usize = 0;
    while i < n + 2
        invariant
            n < isize::MAX,
            i <= n + 2,
            left@.len() == i,
            right@.len() == i,
        decreases n + 2 - i,
    {
        left.push(0);
        right.push(0);
        i += 1;
    }
    let mut i: usize = 1;
    while i <= n
        invariant
            n1 <= n < isize::MAX,
            1 <= i <= n + 1,
            left@.len() == n + 2,
            right@.len() == n + 2,
            forall|j: int| 1 <= j < i ==> #[trigger] left@[j] == j - 1,
            forall|j: int| 0 <= j < i - 1 ==> #[trigger] right@[j] == j + 1,
        decreases n + 1 - i,
    {
        left.set(i, i - 1);
        right.set(i - 1, i);
        i += 1;
    }
    left.set(n + 1, n);
    right.set(n, n + 1);
    left.set(n1 + 1, n + 1);
    right.set(n + 1, n1 + 1);
    left.set(0, n1);
    right.set(n1, 0);
    (left, right)
}

/// The nodes of a problem from their parts.
pub fn assemble(
    left: Vec<Link>,
    right: Vec<Link>,
    slack: Vec<Data>,
    bound: Vec<Data>,
    o: OptArrays,
    primary: Count,
    len: Count,
    colored: bool,
    multi: bool,
) -> (r: crate::links::Links)
    ensures
        r@.net.left == left@,
        r@.net.right == right@,
        r@.net.slack == slack@,
        r@.net.bound == bound@,
        r@.net.hdr == o.hdr@,
        r@.net.up == o.up@,
        r@.net.down == o.down@,
        r@.net.color == o.color@,
        r@.net.primary == primary,
        r@.net.len == len,
        r@.net.colored == colored,
        r@.net.multi == multi,
        r@.ft == Seq::<Link>::empty(),
        r@.updates == 0,
{
    crate::links::Links {
        left,
        right,
        slack,
        bound,
        hdr: o.hdr,
        up: o.up,
        down: o.down,
        color: o.color,
        primary,
        len,
        ft: Vec::new(),
        updates: 0,
        colored,
        multi,
    }
}

/// `n` zeros.
pub fn zeros(n: usize) -> (r: Vec<Data>)
    ensures
        r@.len() == n,
        forall|i: int| 0 <= i < n ==> #[trigger] r@[i] == 0,
{
    let mut v: Vec<Data> = Vec::new();
    let mut i: usize = 0;
    while i < n
        invariant
            i <= n,
            v@.len() == i,
            forall|j: int| 0 <= j < i ==> #[trigger] v@[j] == 0,
        decreases n - i,
    {
        v.push(0);
        i += 1;
    }
    v
}

/// The sequences of vectors.
pub open spec fn seqs_of<T>(os: Seq<Vec<T>>) -> Seq<Seq<T>> {
    os.map_values(|v: Vec<T>| v@)
}

/// The number of nodes depends on the lengths of the options alone.
pub proof fn lemma_node_count_lens<A, B>(n: int, a: Seq<Seq<A>>, b: Seq<Seq<B>>)
    requires
        a.len() == b.len(),
        forall|k: int| 0 <= k < a.len() ==> #[trigger] a[k].len() == b[k].len(),
    ensures
        node_count(n, a) == node_count(n, b),
    decreases a.len(),
{
    if a.len() > 0 {
        lemma_node_count_lens(n, a.drop_last(), b.drop_last());
    }
}

/// Whether the options `os` over `n` items take fewer than `isize::MAX`
/// nodes.
pub fn fits<T>(n: Count, os: &Vec<Vec<T>>) -> (r: bool)
    ensures
        r == (node_count(n as int, seqs_of(os@)) < isize::MAX),
{
    let ghost ss = seqs_of(os@);
    proof {
        lemma_node_count_ge(n as int, ss);
    }
    let lim: usize = isize::MAX as usize;
    if n >= lim - 2 {
        return false;
    }
    let mut total: usize = n + 2;
    let mut k: usize = 0;
    proof {
        assert(ss.take(0) =~= Seq::<Seq<T>>::empty());
    }
    while k < os.len()
        invariant
            ss == seqs_of(os@),
            k <= os@.len(),
            total == node_count(n as int, ss.take(k as int)),
            total < isize::MAX,
            lim == isize::MAX,
        decreases os@.len() - k,
    {
        proof {
            assert(ss.take(k + 1).drop_last() =~= ss.take(k as int));
            assert(ss.take(k + 1).last() == os@[k as int]@);
            lemma_node_count_mono(n as int, ss, k + 1);
        }
        let len = os[k].len();
        if len >= lim - total {
            return false;
        }
        total = total + len + 1;
        if total >= lim {
            return false;
        }
        k += 1;
    }
    proof {
        assert(ss.take(k as int) =~= ss);
    }
    true
}

} // verus!
