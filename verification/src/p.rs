//! Preprocessing of exact cover problems: options that cannot be part of
//! any solution are removed, and so are secondary items that every option
//! mentioning them also covers some other way.

use std::marker::PhantomData;

use vstd::prelude::*;

use crate::{c, x};
use crate::links::Net;
use crate::{Count, Dance, Data, Error, Link};

verus! {

/// A problem whose options can be reduced.
pub trait Reduce: Dance {
    /// What an option holds for one of its items.
    type OData;

    /// The color of option node `n`, `0` without colors.
    fn get_color(&self, n: Link) -> Data;

    /// The data of an entry of item `i` (from `0`) of color `c`.
    spec fn opt_data(i: Count, c: Data) -> Self::OData;

    /// The data of an entry of item `i` (from `0`) of color `c`.
    fn get_opt_data(i: Count, c: Data) -> (r: Self::OData)
        ensures
            r == Self::opt_data(i, c),
    ;
}

impl Reduce for x::Problem {
    type OData = Count;

    fn get_color(&self, n: Link) -> (r: Data)
        ensures
            r == 0,
    {
        0
    }

    open spec fn opt_data(i: Count, c: Data) -> Count {
        i
    }

    fn get_opt_data(i: Count, c: Data) -> (r: Count)
        ensures
            r == i,
    {
        i
    }
}

impl Reduce for c::Problem {
    type OData = (Count, Data);

    fn get_color(&self, n: Link) -> (r: Data)
        ensures
            n < self.dance_view().net.color.len() ==> r == self.dance_view().net.color[n as int],
    {
        let links = self.links();
        if n < links.color.len() {
            links.color[n]
        } else {
            0
        }
    }

    open spec fn opt_data(i: Count, c: Data) -> (Count, Data) {
        (i, c)
    }

    fn get_opt_data(i: Count, c: Data) -> (r: (Count, Data))
        ensures
            r == (i, c),
    {
        (i, c)
    }
}

/// The reduction of a problem, on a copy of its option nodes.
pub struct Preproc<R> {
    hdr: Vec<Data>,
    up: Vec<Link>,
    down: Vec<Link>,
    color: Vec<Data>,
    primary: Count,
    len: Count,
    aux: Vec<Data>,
    rounds: usize,
    opt_start: Link,
    stack: Data,
    change: bool,
    valid: bool,
    kind: PhantomData<R>,
}

/// A copy of `v`.
pub fn copy_of<T: Copy>(v: &Vec<T>) -> (r: Vec<T>)
    ensures
        r@ == v@,
{
    let mut r: Vec<T> = Vec::new();
    let mut k: usize = 0;
    while k < v.len()
        invariant
            k <= v@.len(),
            r@ == v@.take(k as int),
        decreases v@.len() - k,
    {
        r.push(v[k]);
        proof {
            assert(v@.take(k + 1) =~= v@.take(k as int).push(v@[k as int]));
        }
        k += 1;
    }
    proof {
        assert(v@.take(k as int) =~= v@);
    }
    r
}

/// The state a reduction works on: the tops (column lengths of headers,
/// items of entries), the vertical links, and the stack of a primary item
/// left with no option.
#[verifier::ext_equal]
pub struct PState {
    pub hdr: Seq<Data>,
    pub up: Seq<Link>,
    pub down: Seq<Link>,
    pub stack: Data,
}

/// The top of node `x`; `0` out of range.
pub open spec fn p_top(s: PState, x: int) -> Data {
    if 0 <= x < s.hdr.len() {
        s.hdr[x]
    } else {
        0
    }
}

/// The up link of node `x`; node `0` out of range.
pub open spec fn p_up(s: PState, x: int) -> Link {
    if 0 <= x < s.hdr.len() {
        s.up[x]
    } else {
        0
    }
}

/// The down link of node `x`; node `0` out of range.
pub open spec fn p_down(s: PState, x: int) -> Link {
    if 0 <= x < s.hdr.len() {
        s.down[x]
    } else {
        0
    }
}

/// The color of node `x`; `0` out of range.
pub open spec fn p_color(color: Seq<Data>, x: int) -> Data {
    if 0 <= x < color.len() {
        color[x]
    } else {
        0
    }
}

/// The state with the top of node `x` set to `v`, when in range.
pub open spec fn p_set_top(s: PState, x: int, v: Data) -> PState {
    if 0 <= x < s.hdr.len() {
        PState { hdr: s.hdr.update(x, v), ..s }
    } else {
        s
    }
}

/// The state with the up link of node `x` set to `v`, when both are in
/// range.
pub open spec fn p_set_up(s: PState, x: int, v: int) -> PState {
    if 0 <= x < s.hdr.len() && 0 <= v < s.hdr.len() {
        PState { up: s.up.update(x, v as Link), ..s }
    } else {
        s
    }
}

/// The state with the down link of node `x` set to `v`, when both are in
/// range.
pub open spec fn p_set_down(s: PState, x: int, v: int) -> PState {
    if 0 <= x < s.hdr.len() && 0 <= v < s.hdr.len() {
        PState { down: s.down.update(x, v as Link), ..s }
    } else {
        s
    }
}

/// Putting back the entries of an option from entry `qq` down to `p`,
/// walking backwards, for at most `fuel` steps: each entry of an item
/// goes back between its neighbours and its column grows by one; a spacer
/// leads on along its `down` link.
pub open spec fn unhide_entries_walk(s: PState, qq: int, p: int, fuel: nat) -> PState
    decreases fuel,
{
    if qq == p || fuel == 0 {
        s
    } else {
        let cc = p_top(s, qq);
        if cc <= 0 {
            unhide_entries_walk(s, p_down(s, qq) as int, p, (fuel - 1) as nat)
        } else {
            let s1 = p_set_top(s, cc as int, p_top(s, cc as int).wrapping_add(1));
            let uu = p_up(s1, qq) as int;
            let dd = p_down(s1, qq) as int;
            let s2 = p_set_up(p_set_down(s1, uu, qq), dd, qq);
            if qq == 0 {
                s2
            } else {
                unhide_entries_walk(s2, qq - 1, p, (fuel - 1) as nat)
            }
        }
    }
}

/// Putting back the options of a column from entry `p` up, at most
/// `fuel` of them, but those of color `x` when `x` is a color; options
/// start at node `start`.
pub open spec fn pass_2_walk(s: PState, color: Seq<Data>, p: int, x: Data, start: int, fuel: nat) -> PState
    decreases fuel,
{
    if !(p >= start && fuel > 0) {
        s
    } else if x > 0 && x == p_color(color, p) {
        pass_2_walk(s, color, p_up(s, p) as int, x, start, (fuel - 1) as nat)
    } else {
        let s1 = unhide_entries_walk(s, p - 1, p, s.hdr.len() as nat);
        pass_2_walk(s1, color, p_up(s1, p) as int, x, start, (fuel - 1) as nat)
    }
}

/// Undoing the hiding done for the entries of option `r` from entry `q`
/// back, for at most `fuel` steps: for each entry of an item, the options
/// of its column are put back from the last up.
pub open spec fn backup_walk(s: PState, color: Seq<Data>, q: int, r: int, start: int, fuel: nat) -> PState
    decreases fuel,
{
    if q == r || fuel == 0 {
        s
    } else {
        let cc = p_top(s, q);
        if cc <= 0 {
            backup_walk(s, color, p_down(s, q) as int, r, start, (fuel - 1) as nat)
        } else {
            let s1 = pass_2_walk(s, color, p_up(s, cc as int) as int, p_color(color, q), start, s.hdr.len() as nat);
            if q == 0 {
                s1
            } else {
                backup_walk(s1, color, q - 1, r, start, (fuel - 1) as nat)
            }
        }
    }
}

/// Deleting the entries of the option of entry `r`, starting at entry
/// `p`, for at most `fuel` steps: each entry of an item leaves its column,
/// which shrinks by one; the walk stops after `r`, or at a primary item
/// whose column becomes empty; a spacer leads on along its `up` link.
pub open spec fn delete_walk(s: PState, p: int, r: int, primary: int, fuel: nat) -> PState
    decreases fuel,
{
    if fuel == 0 {
        s
    } else {
        let cc = p_top(s, p);
        if cc <= 0 {
            delete_walk(s, p_up(s, p) as int, r, primary, (fuel - 1) as nat)
        } else {
            let uu = p_up(s, p) as int;
            let dd = p_down(s, p) as int;
            let s1 = p_set_up(p_set_down(s, uu, dd), dd, uu);
            let t = p_top(s1, cc as int).wrapping_sub(1);
            let s2 = p_set_top(s1, cc as int, t);
            if (t == 0 && 0 <= cc <= primary) || p == r {
                s2
            } else {
                delete_walk(s2, p + 1, r, primary, (fuel - 1) as nat)
            }
        }
    }
}

/// Hiding the other entries of the option of entry `rr`, starting at
/// entry `nn`, for at most `fuel` steps: each entry of an item leaves its
/// column, which shrinks by one, and a primary item whose column becomes
/// empty goes on the stack; a spacer leads on along its `up` link.
pub open spec fn hide_opt_walk(s: PState, rr: int, nn: int, primary: int, fuel: nat) -> PState
    decreases fuel,
{
    if nn == rr || fuel == 0 {
        s
    } else {
        let uu = p_up(s, nn) as int;
        let dd = p_down(s, nn) as int;
        let cc = p_top(s, nn);
        if cc <= 0 {
            hide_opt_walk(s, rr, uu, primary, (fuel - 1) as nat)
        } else {
            let s1 = p_set_up(p_set_down(s, uu, dd), dd, uu);
            let t = p_top(s1, cc as int).wrapping_sub(1);
            let s2 = p_set_top(s1, cc as int, t);
            let s3 = if t == 0 && 0 <= cc <= primary {
                PState { stack: cc, ..s2 }
            } else {
                s2
            };
            hide_opt_walk(s3, rr, nn + 1, primary, (fuel - 1) as nat)
        }
    }
}

/// Hiding, for the uncolored options of a column from entry `rr` down (at
/// most `fuel` of them), their other entries.
pub open spec fn hide_column_walk(s: PState, color: Seq<Data>, rr: int, start: int, primary: int, fuel: nat) -> PState
    decreases fuel,
{
    if !(rr >= start && fuel > 0) {
        s
    } else {
        let s1 = if p_color(color, rr) == 0 {
            hide_opt_walk(s, rr, rr + 1, primary, s.hdr.len() as nat)
        } else {
            s
        };
        hide_column_walk(s1, color, p_down(s1, rr) as int, start, primary, (fuel - 1) as nat)
    }
}

/// Putting back the other entries of the option of entry `rr`, starting
/// at entry `nn`, for at most `fuel` steps: each entry of an item goes
/// back between its neighbours and its column grows by one.
pub open spec fn unhide_opt_walk(s: PState, rr: int, nn: int, fuel: nat) -> PState
    decreases fuel,
{
    if nn == rr || fuel == 0 {
        s
    } else {
        let uu = p_up(s, nn) as int;
        let dd = p_down(s, nn) as int;
        let cc = p_top(s, nn);
        if cc <= 0 {
            unhide_opt_walk(s, rr, uu, (fuel - 1) as nat)
        } else {
            let t = p_top(s, cc as int);
            let s1 = p_set_up(p_set_down(s, uu, nn), dd, nn);
            let s2 = p_set_top(s1, cc as int, t.wrapping_add(1));
            unhide_opt_walk(s2, rr, nn + 1, (fuel - 1) as nat)
        }
    }
}

/// Putting back, for the uncolored options of a column from entry `rr`
/// down (at most `fuel` of them), their other entries.
pub open spec fn unhide_column_walk(s: PState, color: Seq<Data>, rr: int, start: int, fuel: nat) -> PState
    decreases fuel,
{
    if !(rr >= start && fuel > 0) {
        s
    } else {
        let s1 = if p_color(color, rr) == 0 {
            unhide_opt_walk(s, rr, rr + 1, s.hdr.len() as nat)
        } else {
            s
        };
        unhide_column_walk(s1, color, p_down(s1, rr) as int, start, (fuel - 1) as nat)
    }
}

/// Trying to hide the other entries of the option of entry `p`, from
/// entry `qq` on, for at most `fuel` steps: each entry of an item leaves
/// its column, which shrinks by one, unless that would empty the column of
/// a primary item not marked with `r` in `aux`; then the walk stops there,
/// with `true` and that entry.
pub open spec fn trial_opt_walk(
    s: PState,
    aux: Seq<Data>,
    r: int,
    p: int,
    qq: int,
    primary: int,
    fuel: nat,
) -> (PState, bool, int)
    decreases fuel,
{
    if qq == p || fuel == 0 {
        (s, false, qq)
    } else {
        let cc2 = p_top(s, qq);
        if cc2 <= 0 {
            trial_opt_walk(s, aux, r, p, p_up(s, qq) as int, primary, (fuel - 1) as nat)
        } else {
            let t = p_top(s, cc2 as int).wrapping_sub(1);
            let ac = if 0 <= cc2 < aux.len() {
                aux[cc2 as int]
            } else {
                0
            };
            if t == 0 && 0 <= cc2 <= primary && ac != r {
                (s, true, qq)
            } else {
                let s1 = p_set_top(s, cc2 as int, t);
                let uu = p_up(s1, qq) as int;
                let dd = p_down(s1, qq) as int;
                let s2 = p_set_up(p_set_down(s1, uu, dd), dd, uu);
                trial_opt_walk(s2, aux, r, p, qq + 1, primary, (fuel - 1) as nat)
            }
        }
    }
}

/// A trial stops only at the entry of a primary item (`1..=primary`),
/// not marked with `r`, whose column holds that entry alone: hiding the
/// option would leave that primary item with no option. A secondary item
/// left with no option never stops it.
pub proof fn law_trial_blocks_on_primary(
    s: PState,
    aux: Seq<Data>,
    r: int,
    p: int,
    qq: int,
    primary: int,
    fuel: nat,
)
    ensures
        ({
            let t = trial_opt_walk(s, aux, r, p, qq, primary, fuel);
            let c = p_top(t.0, t.2);
            t.1 ==> {
                &&& 1 <= c <= primary
                &&& p_top(t.0, c as int) == 1
                &&& c < aux.len() ==> aux[c as int] != r
            }
        }),
    decreases fuel,
{
    if qq == p || fuel == 0 {
    } else {
        let cc2 = p_top(s, qq);
        if cc2 <= 0 {
            law_trial_blocks_on_primary(s, aux, r, p, p_up(s, qq) as int, primary, (fuel - 1) as nat);
        } else {
            let top = p_top(s, cc2 as int);
            let mark = if 0 <= cc2 < aux.len() {
                aux[cc2 as int]
            } else {
                0
            };
            if top.wrapping_sub(1) == 0 && cc2 <= primary && mark != r {
                assert(top == 1);
            } else {
                let s1 = p_set_top(s, cc2 as int, top.wrapping_sub(1));
                let uu = p_up(s1, qq) as int;
                let dd = p_down(s1, qq) as int;
                let s2 = p_set_up(p_set_down(s1, uu, dd), dd, uu);
                law_trial_blocks_on_primary(s2, aux, r, p, qq + 1, primary, (fuel - 1) as nat);
            }
        }
    }
}

/// Trying, for the options of a column from entry `p` down (at most
/// `fuel` of them) but those of color `x` when `x` is a color, to hide
/// their other entries, for the entry `q` of option `r`; when one would
/// empty a primary column, everything done for `r` is undone and the
/// walk stops with `true`.
pub open spec fn trial_column_walk(
    s: PState,
    color: Seq<Data>,
    aux: Seq<Data>,
    r: int,
    q: int,
    x: Data,
    p: int,
    start: int,
    primary: int,
    fuel: nat,
) -> (PState, bool)
    decreases fuel,
{
    if !(p >= start && fuel > 0) {
        (s, false)
    } else if x > 0 && x == p_color(color, p) {
        trial_column_walk(s, color, aux, r, q, x, p_down(s, p) as int, start, primary, (fuel - 1) as nat)
    } else {
        let n = s.hdr.len() as nat;
        let t = trial_opt_walk(s, aux, r, p, p + 1, primary, n);
        if t.1 {
            let s2 = unhide_entries_walk(t.0, (t.2 as usize).wrapping_sub(1) as int, p, n);
            let s3 = pass_2_walk(s2, color, p_up(s2, p) as int, x, start, n);
            (backup_walk(s3, color, (q as usize).wrapping_sub(1) as int, r, start, n), true)
        } else {
            trial_column_walk(t.0, color, aux, r, q, x, p_down(t.0, p) as int, start, primary, (fuel - 1) as nat)
        }
    }
}

/// Trying option `r`, from its entry `q` on, for at most `fuel` steps:
/// for each entry of an item, the options of the item's column that clash
/// with it are hidden; `true` (all undone) when that would leave a primary
/// item with no option but through `r`.
pub open spec fn trial_walk(
    s: PState,
    color: Seq<Data>,
    aux: Seq<Data>,
    r: int,
    q: int,
    start: int,
    primary: int,
    fuel: nat,
) -> (PState, bool)
    decreases fuel,
{
    if fuel == 0 {
        (s, false)
    } else {
        let cc = p_top(s, q);
        if cc <= 0 {
            let q2 = p_up(s, q) as int;
            if q2 > r {
                trial_walk(s, color, aux, r, q2, start, primary, (fuel - 1) as nat)
            } else {
                (s, false)
            }
        } else {
            let t = trial_column_walk(
                s,
                color,
                aux,
                r,
                q,
                p_color(color, q),
                p_down(s, cc as int) as int,
                start,
                primary,
                s.hdr.len() as nat,
            );
            if t.1 {
                t
            } else {
                trial_walk(t.0, color, aux, r, q + 1, start, primary, (fuel - 1) as nat)
            }
        }
    }
}

/// Trying to hide the other entries of the option of entry `p` in state
/// `s` stops at the entry of a primary item whose column holds that entry
/// alone.
pub open spec fn stops_at_primary(s: PState, aux: Seq<Data>, r: int, p: int, primary: int) -> bool {
    let u = trial_opt_walk(s, aux, r, p, p + 1, primary, s.hdr.len() as nat);
    let c = p_top(u.0, u.2);
    u.1 && 1 <= c <= primary && p_top(u.0, c as int) == 1
}

proof fn lemma_column_trial_stops(
    s: PState,
    color: Seq<Data>,
    aux: Seq<Data>,
    r: int,
    q: int,
    x: Data,
    p: int,
    start: int,
    primary: int,
    fuel: nat,
)
    ensures
        trial_column_walk(s, color, aux, r, q, x, p, start, primary, fuel).1 ==> exists|
            s2: PState,
            p2: int,
        | #[trigger] stops_at_primary(s2, aux, r, p2, primary),
    decreases fuel,
{
    if !(p >= start && fuel > 0) {
    } else if x > 0 && x == p_color(color, p) {
        lemma_column_trial_stops(s, color, aux, r, q, x, p_down(s, p) as int, start, primary, (fuel - 1) as nat);
    } else {
        let n = s.hdr.len() as nat;
        let t = trial_opt_walk(s, aux, r, p, p + 1, primary, n);
        law_trial_blocks_on_primary(s, aux, r, p, p + 1, primary, n);
        if t.1 {
            assert(stops_at_primary(s, aux, r, p, primary));
        } else {
            lemma_column_trial_stops(
                t.0,
                color,
                aux,
                r,
                q,
                x,
                p_down(t.0, p) as int,
                start,
                primary,
                (fuel - 1) as nat,
            );
        }
    }
}

/// Trying an option fails (and the reduction deletes it) only when hiding
/// the options that clash with it would leave some primary item with no
/// option: at some step the trial of a clashing option stopped at the
/// entry of a primary item whose column held that entry alone.
pub proof fn law_trial_fails_on_primary(
    s: PState,
    color: Seq<Data>,
    aux: Seq<Data>,
    r: int,
    q: int,
    start: int,
    primary: int,
    fuel: nat,
)
    ensures
        trial_walk(s, color, aux, r, q, start, primary, fuel).1 ==> exists|s2: PState, p2: int|
            #[trigger] stops_at_primary(s2, aux, r, p2, primary),
    decreases fuel,
{
    if fuel == 0 {
    } else {
        let cc = p_top(s, q);
        if cc <= 0 {
            let q2 = p_up(s, q) as int;
            if q2 > r {
                law_trial_fails_on_primary(s, color, aux, r, q2, start, primary, (fuel - 1) as nat);
            }
        } else {
            let t = trial_column_walk(
                s,
                color,
                aux,
                r,
                q,
                p_color(color, q),
                p_down(s, cc as int) as int,
                start,
                primary,
                s.hdr.len() as nat,
            );
            lemma_column_trial_stops(
                s,
                color,
                aux,
                r,
                q,
                p_color(color, q),
                p_down(s, cc as int) as int,
                start,
                primary,
                s.hdr.len() as nat,
            );
            if !t.1 {
                law_trial_fails_on_primary(t.0, color, aux, r, q + 1, start, primary, (fuel - 1) as nat);
            }
        }
    }
}

/// Walking back from node `p` (at most `fuel` steps) over entries and
/// over spacers whose `down` link points back: the spacer before the
/// option of `p`, or node `0`.
pub open spec fn option_start(s: PState, p: int, fuel: nat) -> int
    decreases fuel,
{
    if p > 0 && (p_top(s, p) > 0 || p_down(s, p) < p) && fuel > 0 {
        option_start(s, p - 1, (fuel - 1) as nat)
    } else {
        p
    }
}

/// Reading an option from node `q` on, for at most `fuel` nodes, with the
/// data `acc` read so far and `hp` telling whether a primary item was
/// met: the option's number (from the spacer after it, `0` when none is
/// met), the data of its entries (secondary items moved down by `sd`), and
/// whether it holds a primary item.
pub open spec fn scan_option<R: Reduce>(
    s: PState,
    color: Seq<Data>,
    q: int,
    primary: int,
    sd: Count,
    fuel: nat,
    acc: Seq<R::OData>,
    hp: bool,
) -> (Count, Seq<R::OData>, bool)
    decreases fuel,
{
    if fuel == 0 {
        (0, acc, hp)
    } else {
        let itm = p_top(s, q);
        if itm < 0 {
            ((0isize).wrapping_sub(itm).wrapping_sub(1) as Count, acc, hp)
        } else {
            let it = if itm > primary {
                itm.wrapping_sub(sd as Data)
            } else {
                itm
            };
            let acc2 = if itm > 0 {
                acc.push(R::opt_data(it.wrapping_sub(1) as Count, p_color(color, q)))
            } else {
                acc
            };
            let hp2 = hp || (itm > 0 && itm <= primary);
            if q >= s.hdr.len() {
                (0, acc2, hp2)
            } else {
                scan_option::<R>(s, color, q + 1, primary, sd, (fuel - 1) as nat, acc2, hp2)
            }
        }
    }
}

/// The option of entry `p`, read as [`scan_option`] does from the node
/// after its spacer.
pub open spec fn option_of<R: Reduce>(s: PState, color: Seq<Data>, p: int, primary: int, sd: Count) -> (
    Count,
    Seq<R::OData>,
    bool,
) {
    let n = s.hdr.len();
    let st = option_start(
        s,
        if p > 0 && p < n {
            p - 1
        } else {
            0
        },
        n as nat,
    );
    scan_option::<R>(s, color, st + 1, primary, sd, (n + 1) as nat, Seq::empty(), false)
}

/// Walking back from node `q` (at most `fuel` steps) while the `down`
/// link of a node points to the node before it.
pub open spec fn back_walk(s: PState, q: int, fuel: nat) -> int
    decreases fuel,
{
    if q > 0 && p_down(s, q) == q - 1 && fuel > 0 {
        back_walk(s, q - 1, (fuel - 1) as nat)
    } else {
        q
    }
}

/// The numbers `idx` and data `os` of options, added to for the entries
/// of a column from `r` down (at most `fuel` of them): each entry that
/// comes first in its option gives its option when that holds a primary
/// item.
pub open spec fn column_options<R: Reduce>(
    s: PState,
    color: Seq<Data>,
    r: int,
    start: int,
    primary: int,
    sd: Count,
    fuel: nat,
    idx: Seq<Count>,
    os: Seq<Seq<R::OData>>,
) -> (Seq<Count>, Seq<Seq<R::OData>>)
    decreases fuel,
{
    if !(r >= start && fuel > 0) {
        (idx, os)
    } else {
        let q = back_walk(s, r - 1, s.hdr.len() as nat);
        let opt = option_of::<R>(s, color, r, primary, sd);
        let (idx2, os2) = if p_top(s, q) <= 0 && opt.2 {
            (idx.push(opt.0), os.push(opt.1))
        } else {
            (idx, os)
        };
        column_options::<R>(s, color, p_down(s, r) as int, start, primary, sd, (fuel - 1) as nat, idx2, os2)
    }
}

/// The numbers and data of the options found from the columns of the items
/// `c..=len` that are not empty, added to `idx` and `os`.
pub open spec fn all_options<R: Reduce>(
    s: PState,
    color: Seq<Data>,
    c: int,
    len: int,
    start: int,
    primary: int,
    sd: Count,
    idx: Seq<Count>,
    os: Seq<Seq<R::OData>>,
) -> (Seq<Count>, Seq<Seq<R::OData>>)
    decreases len + 1 - c,
{
    if c > len || c < 1 {
        (idx, os)
    } else {
        let (i2, o2) = if p_top(s, c) != 0 {
            column_options::<R>(s, color, p_down(s, c) as int, start, primary, sd, s.hdr.len() as nat, idx, os)
        } else {
            (idx, os)
        };
        all_options::<R>(s, color, c + 1, len, start, primary, sd, i2, o2)
    }
}

/// How far the secondary items move down once the items with empty
/// columns are left out: the gap between the first secondary item kept
/// and the last primary item kept.
pub open spec fn shift_of(hdr: Seq<Data>, primary: int, len: int) -> Count {
    let ps = kept_items(hdr, primary, len, true);
    let ss = kept_items(hdr, primary, len, false);
    if ss.len() == 0 {
        0
    } else if ps.len() == 0 {
        ss[0]
    } else {
        ss[0].wrapping_sub(ps.last()).wrapping_sub(1)
    }
}

/// Looking, from entry `q` of the option of entry `r` on (at most `fuel`
/// steps), for an entry of the item `stack`: the entry found, or `r` when
/// the walk comes round.
pub open spec fn find_walk(s: PState, r: int, q: int, stack: Data, fuel: nat) -> int
    decreases fuel,
{
    if q == r || fuel == 0 {
        q
    } else {
        let cc = p_top(s, q);
        if cc <= 0 {
            find_walk(s, r, p_up(s, q) as int, stack, (fuel - 1) as nat)
        } else if cc == stack {
            q
        } else {
            find_walk(s, r, q + 1, stack, (fuel - 1) as nat)
        }
    }
}

/// Deleting the other entries of the option of entry `r`, from entry `q`
/// on (at most `fuel` steps): each entry of an item leaves its column,
/// which shrinks by one, unless that would empty the column of a primary
/// item; then the walk stops with that item.
pub open spec fn remove_opt_walk(s: PState, r: int, q: int, primary: int, fuel: nat) -> (PState, Option<Data>)
    decreases fuel,
{
    if q == r || fuel == 0 {
        (s, None)
    } else {
        let cc = p_top(s, q);
        if cc <= 0 {
            remove_opt_walk(s, r, p_up(s, q) as int, primary, (fuel - 1) as nat)
        } else {
            let t = p_top(s, cc as int).wrapping_sub(1);
            if t == 0 && 0 <= cc <= primary {
                (s, Some(cc))
            } else {
                let s1 = p_set_top(s, cc as int, t);
                let uu = p_up(s1, q) as int;
                let dd = p_down(s1, q) as int;
                remove_opt_walk(p_set_up(p_set_down(s1, uu, dd), dd, uu), r, q + 1, primary, (fuel - 1) as nat)
            }
        }
    }
}

/// Removing the options of a column from entry `r` down (at most `fuel`
/// of them): an option holding the item `stack` is cut down to an empty
/// option (its entry `r` made a spacer); another is deleted from the other
/// columns, unless that would leave a primary item with no option, which
/// stops the walk with that item.
pub open spec fn remove_walk(s: PState, r: int, start: int, primary: int, fuel: nat) -> (PState, Option<Data>)
    decreases fuel,
{
    if !(r >= start && fuel > 0) {
        (s, None)
    } else {
        let n = s.hdr.len() as nat;
        let rrr = p_down(s, r) as int;
        let q = find_walk(s, r, r + 1, s.stack, n);
        if q != r {
            let s1 = p_set_top(p_set_down(p_set_up(s, r, r + 1), r, r - 1), r, 0);
            remove_walk(s1, rrr, start, primary, (fuel - 1) as nat)
        } else {
            let t = remove_opt_walk(s, r, r + 1, primary, n);
            if t.1 is Some {
                t
            } else {
                remove_walk(t.0, rrr, start, primary, (fuel - 1) as nat)
            }
        }
    }
}

/// Removing item `c`: its uncolored options are put back in the other
/// columns, then its options removed, and its column emptied; a primary
/// item left with no option on the way is given instead.
pub open spec fn remove_item_walk(s: PState, color: Seq<Data>, c: int, start: int, primary: int) -> (PState, Option<Data>) {
    let n = s.hdr.len() as nat;
    let s1 = unhide_column_walk(s, color, p_down(s, c) as int, start, n);
    let t = remove_walk(s1, p_down(s1, c) as int, start, primary, n);
    if t.1 is Some {
        t
    } else {
        (p_set_top(p_set_down(p_set_up(t.0, c, c), c, c), c, 0), None)
    }
}

/// Marking, in `aux`, the items of the entries of the option of entry `r`
/// from entry `q` on (at most `fuel` steps) with `r`.
pub open spec fn mark_walk(s: PState, aux: Seq<Data>, r: int, q: int, fuel: nat) -> Seq<Data>
    decreases fuel,
{
    if fuel == 0 {
        aux
    } else {
        let cc = p_top(s, q);
        if cc <= 0 {
            let q2 = p_up(s, q) as int;
            if q2 > r {
                mark_walk(s, aux, r, q2, (fuel - 1) as nat)
            } else {
                aux
            }
        } else {
            let aux2 = if 0 <= cc < aux.len() {
                aux.update(cc as int, r as Data)
            } else {
                aux
            };
            mark_walk(s, aux2, r, q + 1, (fuel - 1) as nat)
        }
    }
}

/// Trying each uncolored option of a column that starts there, from entry
/// `r` down (at most `fuel` of them): its items are marked in `aux`, and an
/// option whose trial leaves a primary item with no option is pushed on
/// the stack of options to delete (through its entry's top), with a
/// change; the others are put back.
pub open spec fn try_column_walk(
    s: PState,
    aux: Seq<Data>,
    change: bool,
    color: Seq<Data>,
    r: int,
    start: int,
    primary: int,
    fuel: nat,
) -> (PState, Seq<Data>, bool)
    decreases fuel,
{
    if !(r >= start && fuel > 0) {
        (s, aux, change)
    } else {
        let n = s.hdr.len() as nat;
        let q = back_walk(s, r - 1, n);
        let (s1, aux1, ch1) = if p_top(s, q) <= 0 && p_color(color, r) == 0 {
            let aux1 = mark_walk(s, aux, r, r + 1, n);
            let t = trial_walk(s, color, aux1, r, r + 1, start, primary, n);
            if !t.1 {
                (backup_walk(t.0, color, r - 1, r, start, n), aux1, change)
            } else {
                let s2 = p_set_top(t.0, r, t.0.stack);
                (PState { stack: r as Data, ..s2 }, aux1, true)
            }
        } else {
            (s, aux, change)
        };
        try_column_walk(s1, aux1, ch1, color, p_down(s1, r) as int, start, primary, (fuel - 1) as nat)
    }
}

/// Deleting the options on the stack that starts at entry `r` (at most
/// `fuel` of them), each linked to the next through its entry's top, which
/// is set back to the item `itm`.
pub open spec fn delete_stack_walk(s: PState, itm: int, r: int, primary: int, fuel: nat) -> PState
    decreases fuel,
{
    if !(r != 0 && fuel > 0) {
        s
    } else {
        let n = s.hdr.len();
        let rr = p_top(s, r);
        let s1 = p_set_top(s, r, itm as Data);
        let s2 = delete_walk(s1, r + 1, r, primary, n as nat);
        delete_stack_walk(s2, itm, if 0 <= rr < n { rr as int } else { 0 }, primary, (fuel - 1) as nat)
    }
}

/// Reducing the options of item `itm`: when hiding its column leaves a
/// primary item with no option, the item is removed; otherwise each
/// uncolored option of the column whose trial leaves some primary item
/// with no option is deleted. Gives the state, the marks, whether
/// something changed, and the primary item left with no option, if any.
pub open spec fn reduce_walk(
    s: PState,
    aux: Seq<Data>,
    change: bool,
    color: Seq<Data>,
    itm: int,
    start: int,
    primary: int,
) -> (PState, Seq<Data>, bool, Option<Data>) {
    let n = s.hdr.len() as nat;
    let s0 = PState { stack: 0, ..s };
    let s1 = hide_column_walk(s0, color, p_down(s0, itm) as int, start, primary, n);
    if s1.stack != 0 {
        let t = remove_item_walk(s1, color, itm, start, primary);
        (t.0, aux, if t.1 is None { true } else { change }, t.1)
    } else {
        let t = try_column_walk(s1, aux, change, color, p_down(s1, itm) as int, start, primary, n);
        let s3 = unhide_column_walk(t.0, color, p_down(t.0, itm) as int, start, n);
        (delete_stack_walk(s3, itm, s3.stack as int, primary, n), t.1, t.2, None)
    }
}

/// One round of reduction over the items `itm..=len` whose column is not
/// empty, stopping at a primary item left with no option.
pub open spec fn round_walk(
    s: PState,
    aux: Seq<Data>,
    change: bool,
    color: Seq<Data>,
    itm: int,
    len: int,
    start: int,
    primary: int,
) -> (PState, Seq<Data>, bool, Option<Data>)
    decreases len + 1 - itm,
{
    if itm > len || itm < 1 {
        (s, aux, change, None)
    } else if p_top(s, itm) != 0 {
        let t = reduce_walk(s, aux, change, color, itm, start, primary);
        if t.3 is Some {
            t
        } else {
            round_walk(t.0, t.1, t.2, color, itm + 1, len, start, primary)
        }
    } else {
        round_walk(s, aux, change, color, itm + 1, len, start, primary)
    }
}

/// Rounds of reduction, from round number `rounds` up to `max`, until a
/// round changes nothing or a primary item is left with no option: the
/// state, the marks, the number of rounds made and that item, if any.
pub open spec fn rounds_walk(
    s: PState,
    aux: Seq<Data>,
    color: Seq<Data>,
    rounds: int,
    max: int,
    len: int,
    start: int,
    primary: int,
) -> (PState, Seq<Data>, int, Option<Data>)
    decreases max - rounds,
{
    if rounds >= max {
        (s, aux, rounds, None)
    } else {
        let t = round_walk(s, aux, false, color, 1, len, start, primary);
        if t.3 is Some || !t.2 {
            (t.0, t.1, rounds + 1, t.3)
        } else {
            rounds_walk(t.0, t.1, color, rounds + 1, max, len, start, primary)
        }
    }
}

/// Every link of the option nodes is in range, the arrays have one length
/// below `isize::MAX`, and there are item headers and a first spacer.
pub open spec fn in_range(v: Net) -> bool {
    &&& v.up.len() == v.hdr.len()
    &&& v.down.len() == v.hdr.len()
    &&& v.color.len() == v.hdr.len()
    &&& v.hdr.len() < isize::MAX
    &&& v.primary <= v.len
    &&& v.len + 2 <= v.hdr.len()
    &&& forall|i: int| 0 <= i < v.hdr.len() ==> #[trigger] v.up[i] < v.hdr.len() && v.down[i] < v.hdr.len()
}

impl<R: Reduce> Preproc<R> {
    /// The marks of items with the option last tried.
    pub closed spec fn marks(&self) -> Seq<Data> {
        self.aux@
    }

    /// The colors of the nodes.
    pub closed spec fn colors(&self) -> Seq<Data> {
        self.color@
    }

    /// The state of the reduction.
    pub closed spec fn pstate(&self) -> PState {
        PState { hdr: self.hdr@, up: self.up@, down: self.down@, stack: self.stack }
    }

    /// The sizes and link ranges that every step keeps.
    pub closed spec fn inv(&self) -> bool {
        &&& self.up@.len() == self.hdr@.len()
        &&& self.down@.len() == self.hdr@.len()
        &&& self.color@.len() == self.hdr@.len()
        &&& self.hdr@.len() < isize::MAX
        &&& self.opt_start == self.len + 2
        &&& self.primary <= self.len
        &&& self.len + 2 <= self.hdr@.len()
        &&& self.aux@.len() == self.len + 1
        &&& forall|i: int| 0 <= i < self.hdr@.len() ==> #[trigger] self.up@[i] < self.hdr@.len()
        &&& forall|i: int| 0 <= i < self.hdr@.len() ==> #[trigger] self.down@[i] < self.hdr@.len()
        &&& 0 <= self.stack < self.hdr@.len()
    }

    /// Whether the copied nodes were in range.
    pub closed spec fn is_valid(&self) -> bool {
        self.valid
    }

    /// The number of rounds of reduction made.
    pub closed spec fn rounds_made(&self) -> usize {
        self.rounds
    }

    /// The column lengths (for headers) and items (for entries).
    pub closed spec fn tops(&self) -> Seq<Data> {
        self.hdr@
    }

    /// The number of items.
    pub closed spec fn item_count(&self) -> Count {
        self.len
    }

    /// The number of primary items.
    pub closed spec fn primary_count(&self) -> Count {
        self.primary
    }

    /// A reduction of a copy of `problem`'s option nodes. The nodes are
    /// valid when every link is in range.
    pub fn new(problem: &R) -> (r: Preproc<R>)
        ensures
            r.inv(),
            r.is_valid() == in_range(problem.dance_view().net),
            r.is_valid() ==> r.tops() == problem.dance_view().net.hdr,
            r.is_valid() ==> r.item_count() == problem.dance_view().net.len,
            r.is_valid() ==> r.primary_count() == problem.dance_view().net.primary,
            r.rounds_made() == 0,
    {
        let links = problem.links();
        let nn = links.hdr.len();
        let mut ok = links.up.len() == nn && links.down.len() == nn && links.color.len() == nn
            && nn < isize::MAX as usize && links.primary <= links.len && links.len < nn && nn - links.len >= 2;
        let mut k: usize = 0;
        while ok && k < nn
            invariant
                ok ==> links.up@.len() == nn && links.down@.len() == nn,
                ok ==> links.color@.len() == nn && nn < isize::MAX && links.primary <= links.len
                    && links.len + 2 <= nn,
                ok == (links.up@.len() == nn && links.down@.len() == nn && links.color@.len() == nn
                    && nn < isize::MAX && links.primary <= links.len && links.len + 2 <= nn && forall|i: int|
                    0 <= i < k ==> #[trigger] links.up@[i] < nn && links.down@[i] < nn),
                links@ == problem.dance_view(),
                nn == links.hdr@.len(),
                k <= nn,
                ok ==> forall|i: int| 0 <= i < k ==> #[trigger] links.up@[i] < nn,
                ok ==> forall|i: int| 0 <= i < k ==> #[trigger] links.down@[i] < nn,
            decreases nn - k,
        {
            if links.up[k] >= nn || links.down[k] >= nn {
                ok = false;
            }
            k += 1;
        }
        if !ok {
            let mut aux: Vec<Data> = Vec::new();
            aux.push(0);
            return Preproc {
                hdr: vec![0, 0],
                up: vec![0, 0],
                down: vec![0, 0],
                color: vec![0, 0],
                primary: 0,
                len: 0,
                aux,
                rounds: 0,
                opt_start: 2,
                stack: 0,
                change: false,
                valid: false,
                kind: PhantomData,
            };
        }
        let len = links.len;
        let mut aux: Vec<Data> = Vec::new();
        let mut j: usize = 0;
        while j < len + 1
            invariant
                j <= len + 1,
                aux@.len() == j,
                len + 2 <= nn < isize::MAX,
            decreases len + 1 - j,
        {
            aux.push(0);
            j += 1;
        }
        proof {
            assert(forall|i: int| 0 <= i < nn ==> #[trigger] links.up@[i] < nn);
            assert(forall|i: int| 0 <= i < nn ==> #[trigger] links.down@[i] < nn);
        }
        let r = Preproc {
            hdr: copy_of(&links.hdr),
            up: copy_of(&links.up),
            down: copy_of(&links.down),
            color: copy_of(&links.color),
            primary: links.primary,
            len,
            aux,
            rounds: 0,
            opt_start: len + 2,
            stack: 0,
            change: false,
            valid: true,
            kind: PhantomData,
        };
        proof {
            assert(r.up@.len() == r.hdr@.len());
            assert(r.aux@.len() == r.len + 1);
            assert(forall|i: int| 0 <= i < r.hdr@.len() ==> #[trigger] r.up@[i] < r.hdr@.len());
            assert(forall|i: int| 0 <= i < r.hdr@.len() ==> #[trigger] r.down@[i] < r.hdr@.len());
            assert(r.hdr@.len() < isize::MAX);
        }
        r
    }
}

impl<R: Reduce> Preproc<R> {
    /// The parts that the steps of a reduction leave alone.
    pub closed spec fn same_shape(&self, other: &Self) -> bool {
        &&& self.len == other.len
        &&& self.primary == other.primary
        &&& self.valid == other.valid
        &&& self.rounds == other.rounds
        &&& self.hdr@.len() == other.hdr@.len()
    }

    /// The top (column length or item) of node `x`; `0` out of range.
    fn top(&self, x: Link) -> (r: Data)
        requires
            self.inv(),
        ensures
            x < self.hdr@.len() ==> r == self.hdr@[x as int],
            x >= self.hdr@.len() ==> r == 0,
    {
        if x < self.hdr.len() {
            self.hdr[x]
        } else {
            0
        }
    }

    /// The up link of node `x`; node `0` out of range.
    fn ulink(&self, x: Link) -> (r: Link)
        requires
            self.inv(),
        ensures
            r < self.hdr@.len(),
            x < self.hdr@.len() ==> r == self.up@[x as int],
            x >= self.hdr@.len() ==> r == 0,
    {
        if x < self.up.len() {
            self.up[x]
        } else {
            0
        }
    }

    /// The down link of node `x`; node `0` out of range.
    fn dlink(&self, x: Link) -> (r: Link)
        requires
            self.inv(),
        ensures
            r < self.hdr@.len(),
            x < self.hdr@.len() ==> r == self.down@[x as int],
            x >= self.hdr@.len() ==> r == 0,
    {
        if x < self.down.len() {
            self.down[x]
        } else {
            0
        }
    }

    /// The color of node `x`; `0` out of range.
    fn color_of(&self, x: Link) -> (r: Data)
        requires
            self.inv(),
        ensures
            x < self.hdr@.len() ==> r == self.color@[x as int],
            x >= self.hdr@.len() ==> r == 0,
    {
        if x < self.color.len() {
            self.color[x]
        } else {
            0
        }
    }

    /// Set the top of node `x`, when in range.
    fn set_top(&mut self, x: Link, v: Data)
        requires
            old(self).inv(),
        ensures
            final(self).inv(),
            final(self).same_shape(old(self)),
            final(self).hdr@ == (if x < old(self).hdr@.len() {
                old(self).hdr@.update(x as int, v)
            } else {
                old(self).hdr@
            }),
            final(self).up@ == old(self).up@,
            final(self).down@ == old(self).down@,
            final(self).color@ == old(self).color@,
            final(self).aux@ == old(self).aux@,
            final(self).stack == old(self).stack,
            final(self).change == old(self).change,
    {
        if x < self.hdr.len() {
            self.hdr.set(x, v);
        }
    }

    /// Set the up link of node `x` to `v`, when both are in range.
    fn set_ulink(&mut self, x: Link, v: Link)
        requires
            old(self).inv(),
        ensures
            final(self).inv(),
            final(self).same_shape(old(self)),
            final(self).hdr@ == old(self).hdr@,
            final(self).up@ == (if x < old(self).hdr@.len() && v < old(self).hdr@.len() {
                old(self).up@.update(x as int, v)
            } else {
                old(self).up@
            }),
            final(self).down@ == old(self).down@,
            final(self).color@ == old(self).color@,
            final(self).aux@ == old(self).aux@,
            final(self).stack == old(self).stack,
            final(self).change == old(self).change,
    {
        if x < self.up.len() && v < self.up.len() {
            self.up.set(x, v);
        }
    }

    /// Set the down link of node `x` to `v`, when both are in range.
    fn set_dlink(&mut self, x: Link, v: Link)
        requires
            old(self).inv(),
        ensures
            final(self).inv(),
            final(self).same_shape(old(self)),
            final(self).hdr@ == old(self).hdr@,
            final(self).down@ == (if x < old(self).hdr@.len() && v < old(self).hdr@.len() {
                old(self).down@.update(x as int, v)
            } else {
                old(self).down@
            }),
            final(self).up@ == old(self).up@,
            final(self).color@ == old(self).color@,
            final(self).aux@ == old(self).aux@,
            final(self).stack == old(self).stack,
            final(self).change == old(self).change,
    {
        if x < self.down.len() && v < self.down.len() {
            self.down.set(x, v);
        }
    }

    /// Whether `i` is a primary item (or below).
    fn is_primary(&self, i: Data) -> (r: bool)
        ensures
            r == (i >= 0 && i <= self.primary),
    {
        i >= 0 && (i as Count) <= self.primary
    }

    /// Hide the entries of the uncolored options of column `c` from their
    /// other columns; a primary item left with no option is pushed on the
    /// stack.
    fn hide_column(&mut self, c: Link)
        requires
            old(self).inv(),
        ensures
            final(self).inv(),
            final(self).same_shape(old(self)),
            final(self).change == old(self).change,
            final(self).stack == old(self).stack || 1 <= final(self).stack <= final(self).primary,
            final(self).pstate() == hide_column_walk(
                old(self).pstate(),
                old(self).color@,
                p_down(old(self).pstate(), c as int) as int,
                old(self).opt_start as int,
                old(self).primary as int,
                old(self).hdr@.len() as nat,
            ),
            final(self).color@ == old(self).color@,
            final(self).aux@ == old(self).aux@,
    {
        let n = self.hdr.len();
        let mut rr = self.dlink(c);
        let ghost target = hide_column_walk(
            self.pstate(),
            self.color@,
            rr as int,
            self.opt_start as int,
            self.primary as int,
            n as nat,
        );
        let mut fuel = n;
        while rr >= self.opt_start && fuel > 0
            invariant
                self.inv(),
                self.same_shape(old(self)),
                self.change == old(self).change,
                self.stack == old(self).stack || 1 <= self.stack <= self.primary,
                n == self.hdr@.len(),
                rr < n,
                self.color@ == old(self).color@,
                self.aux@ == old(self).aux@,
                self.opt_start == old(self).opt_start,
                target == hide_column_walk(
                    old(self).pstate(),
                    old(self).color@,
                    p_down(old(self).pstate(), c as int) as int,
                    old(self).opt_start as int,
                    old(self).primary as int,
                    old(self).hdr@.len() as nat,
                ),
                hide_column_walk(self.pstate(), self.color@, rr as int, self.opt_start as int, self.primary as int, fuel as nat)
                    == target,
            decreases fuel,
        {
            let ghost s0 = self.pstate();
            let ghost fuel0 = fuel;
            fuel -= 1;
            if self.color_of(rr) == 0 {
                let mut nn = rr + 1;
                let mut f2 = n;
                let ghost inner = hide_opt_walk(s0, rr as int, rr + 1, self.primary as int, n as nat);
                while nn != rr && f2 > 0
                    invariant
                        self.inv(),
                        self.same_shape(old(self)),
                        self.change == old(self).change,
                        self.stack == old(self).stack || 1 <= self.stack <= self.primary,
                        n == self.hdr@.len(),
                        nn <= n,
                        rr < n,
                        self.color@ == old(self).color@,
                        self.aux@ == old(self).aux@,
                        hide_opt_walk(self.pstate(), rr as int, nn as int, self.primary as int, f2 as nat) == inner,
                    decreases f2,
                {
                    let ghost t0 = self.pstate();
                    let ghost nn0 = nn;
                    f2 -= 1;
                    let uu = self.ulink(nn);
                    let dd = self.dlink(nn);
                    let cc = self.top(nn);
                    if cc <= 0 {
                        nn = uu;
                        proof {
                            assert(hide_opt_walk(t0, rr as int, nn0 as int, self.primary as int, (f2 + 1) as nat)
                                == hide_opt_walk(t0, rr as int, nn as int, self.primary as int, f2 as nat));
                        }
                        continue;
                    }
                    self.set_dlink(uu, dd);
                    self.set_ulink(dd, uu);
                    let ghost t1 = self.pstate();
                    assert(t1 =~= p_set_up(p_set_down(t0, uu as int, dd as int), dd as int, uu as int));
                    let t = self.top(cc as Link).wrapping_sub(1);
                    self.set_top(cc as Link, t);
                    assert(self.pstate() =~= p_set_top(t1, cc as int, t));
                    if t == 0 && self.is_primary(cc) {
                        self.stack = cc;
                    }
                    nn += 1;
                }
            }
            rr = self.dlink(rr);
        }
    }

    /// Undo `hide_column(c)`.
    fn unhide_column(&mut self, c: Link)
        requires
            old(self).inv(),
        ensures
            final(self).inv(),
            final(self).same_shape(old(self)),
            final(self).change == old(self).change,
            final(self).stack == old(self).stack,
            final(self).pstate() == unhide_column_walk(
                old(self).pstate(),
                old(self).color@,
                p_down(old(self).pstate(), c as int) as int,
                old(self).opt_start as int,
                old(self).hdr@.len() as nat,
            ),
            final(self).color@ == old(self).color@,
            final(self).aux@ == old(self).aux@,
    {
        let n = self.hdr.len();
        let mut rr = self.dlink(c);
        let ghost target = unhide_column_walk(self.pstate(), self.color@, rr as int, self.opt_start as int, n as nat);
        let mut fuel = n;
        while rr >= self.opt_start && fuel > 0
            invariant
                self.inv(),
                self.same_shape(old(self)),
                self.change == old(self).change,
                self.stack == old(self).stack,
                n == self.hdr@.len(),
                rr < n,
                self.color@ == old(self).color@,
                self.aux@ == old(self).aux@,
                self.opt_start == old(self).opt_start,
                target == unhide_column_walk(
                    old(self).pstate(),
                    old(self).color@,
                    p_down(old(self).pstate(), c as int) as int,
                    old(self).opt_start as int,
                    old(self).hdr@.len() as nat,
                ),
                unhide_column_walk(self.pstate(), self.color@, rr as int, self.opt_start as int, fuel as nat) == target,
            decreases fuel,
        {
            let ghost s0 = self.pstate();
            fuel -= 1;
            if self.color_of(rr) == 0 {
                let mut nn = rr + 1;
                let mut f2 = n;
                let ghost inner = unhide_opt_walk(s0, rr as int, rr + 1, n as nat);
                while nn != rr && f2 > 0
                    invariant
                        self.inv(),
                        self.same_shape(old(self)),
                        self.change == old(self).change,
                        self.stack == old(self).stack,
                        n == self.hdr@.len(),
                        nn <= n,
                        rr < n,
                        self.color@ == old(self).color@,
                        self.aux@ == old(self).aux@,
                        unhide_opt_walk(self.pstate(), rr as int, nn as int, f2 as nat) == inner,
                    decreases f2,
                {
                    let ghost t0 = self.pstate();
                    let ghost nn0 = nn;
                    f2 -= 1;
                    let uu = self.ulink(nn);
                    let dd = self.dlink(nn);
                    let cc = self.top(nn);
                    if cc <= 0 {
                        nn = uu;
                        proof {
                            assert(unhide_opt_walk(t0, rr as int, nn0 as int, (f2 + 1) as nat) == unhide_opt_walk(
                                t0,
                                rr as int,
                                nn as int,
                                f2 as nat,
                            ));
                        }
                        continue;
                    }
                    let t = self.top(cc as Link);
                    self.set_dlink(uu, nn);
                    self.set_ulink(dd, nn);
                    let ghost t1 = self.pstate();
                    assert(t1 =~= p_set_up(p_set_down(t0, uu as int, nn as int), dd as int, nn as int));
                    self.set_top(cc as Link, t.wrapping_add(1));
                    assert(self.pstate() =~= p_set_top(t1, cc as int, t.wrapping_add(1)));
                    nn += 1;
                }
            }
            rr = self.dlink(rr);
        }
    }
}

impl<R: Reduce> Preproc<R> {
    /// Put back the entries of option `p` from entry `qq` down to `p`,
    /// walking backwards.
    fn unhide_entries(&mut self, qq: Link, p: Link)
        requires
            old(self).inv(),
        ensures
            final(self).inv(),
            final(self).same_shape(old(self)),
            final(self).change == old(self).change,
            final(self).stack == old(self).stack,
            final(self).pstate() == unhide_entries_walk(old(self).pstate(), qq as int, p as int, old(self).hdr@.len() as nat),
            final(self).color@ == old(self).color@,
            final(self).aux@ == old(self).aux@,
    {
        let n = self.hdr.len();
        let ghost target = unhide_entries_walk(self.pstate(), qq as int, p as int, n as nat);
        let mut qq = qq;
        let mut fuel = n;
        while qq != p && fuel > 0
            invariant
                self.inv(),
                self.same_shape(old(self)),
                self.change == old(self).change,
                self.stack == old(self).stack,
                n == self.hdr@.len(),
                self.color@ == old(self).color@,
                self.aux@ == old(self).aux@,
                unhide_entries_walk(self.pstate(), qq as int, p as int, fuel as nat) == target,
            decreases fuel,
        {
            let ghost s0 = self.pstate();
            let ghost q0 = qq;
            fuel -= 1;
            let cc = self.top(qq);
            if cc <= 0 {
                qq = self.dlink(qq);
                proof {
                    assert(unhide_entries_walk(s0, q0 as int, p as int, (fuel + 1) as nat) == unhide_entries_walk(
                        s0,
                        qq as int,
                        p as int,
                        fuel as nat,
                    ));
                }
                continue;
            }
            let t = self.top(cc as Link).wrapping_add(1);
            self.set_top(cc as Link, t);
            let ghost s1 = self.pstate();
            assert(s1 =~= p_set_top(s0, cc as int, p_top(s0, cc as int).wrapping_add(1)));
            let uu = self.ulink(qq);
            let dd = self.dlink(qq);
            self.set_dlink(uu, qq);
            self.set_ulink(dd, qq);
            assert(self.pstate() =~= p_set_up(p_set_down(s1, uu as int, qq as int), dd as int, qq as int));
            if qq == 0 {
                fuel = 0;
            } else {
                qq -= 1;
            }
        }
    }

    /// Put back the options of a column from `p` up, but those of color
    /// `x` when `x` is a color.
    fn pass_2(&mut self, p: Link, x: Data)
        requires
            old(self).inv(),
        ensures
            final(self).inv(),
            final(self).same_shape(old(self)),
            final(self).change == old(self).change,
            final(self).stack == old(self).stack,
            final(self).pstate() == pass_2_walk(
                old(self).pstate(),
                old(self).color@,
                p as int,
                x,
                old(self).opt_start as int,
                old(self).hdr@.len() as nat,
            ),
            final(self).color@ == old(self).color@,
            final(self).aux@ == old(self).aux@,
    {
        let n = self.hdr.len();
        let ghost target = pass_2_walk(self.pstate(), self.color@, p as int, x, self.opt_start as int, n as nat);
        let mut p = p;
        let mut fuel = n;
        while p >= self.opt_start && fuel > 0
            invariant
                self.inv(),
                self.same_shape(old(self)),
                self.change == old(self).change,
                self.stack == old(self).stack,
                n == self.hdr@.len(),
                self.color@ == old(self).color@,
                self.aux@ == old(self).aux@,
                self.opt_start == old(self).opt_start,
                pass_2_walk(self.pstate(), self.color@, p as int, x, self.opt_start as int, fuel as nat) == target,
            decreases fuel,
        {
            let ghost s0 = self.pstate();
            let ghost p0 = p;
            fuel -= 1;
            if x > 0 && x == self.color_of(p) {
                p = self.ulink(p);
                proof {
                    assert(pass_2_walk(s0, self.color@, p0 as int, x, self.opt_start as int, (fuel + 1) as nat)
                        == pass_2_walk(s0, self.color@, p as int, x, self.opt_start as int, fuel as nat));
                }
                continue;
            }
            self.unhide_entries(p - 1, p);
            p = self.ulink(p);
        }
    }

    /// Undo the hiding done for the entries of option `r` from `q` back.
    fn backup(&mut self, q: Link, r: Link)
        requires
            old(self).inv(),
        ensures
            final(self).inv(),
            final(self).same_shape(old(self)),
            final(self).change == old(self).change,
            final(self).stack == old(self).stack,
            final(self).pstate() == backup_walk(
                old(self).pstate(),
                old(self).color@,
                q as int,
                r as int,
                old(self).opt_start as int,
                old(self).hdr@.len() as nat,
            ),
            final(self).color@ == old(self).color@,
            final(self).aux@ == old(self).aux@,
    {
        let n = self.hdr.len();
        let ghost target = backup_walk(self.pstate(), self.color@, q as int, r as int, self.opt_start as int, n as nat);
        let mut q = q;
        let mut fuel = n;
        while q != r && fuel > 0
            invariant
                self.inv(),
                self.same_shape(old(self)),
                self.change == old(self).change,
                self.stack == old(self).stack,
                n == self.hdr@.len(),
                self.color@ == old(self).color@,
                self.aux@ == old(self).aux@,
                self.opt_start == old(self).opt_start,
                backup_walk(self.pstate(), self.color@, q as int, r as int, self.opt_start as int, fuel as nat) == target,
            decreases fuel,
        {
            let ghost s0 = self.pstate();
            let ghost q0 = q;
            fuel -= 1;
            let cc = self.top(q);
            if cc <= 0 {
                q = self.dlink(q);
                proof {
                    assert(backup_walk(s0, self.color@, q0 as int, r as int, self.opt_start as int, (fuel + 1) as nat)
                        == backup_walk(s0, self.color@, q as int, r as int, self.opt_start as int, fuel as nat));
                }
                continue;
            }
            let x = self.color_of(q);
            let p = self.ulink(cc as Link);
            self.pass_2(p, x);
            if q == 0 {
                fuel = 0;
            } else {
                q -= 1;
            }
        }
    }

    /// Try option `r`: hide, for each of its items, the options that clash
    /// with it; `true` (all undone) when some primary item is left with no
    /// option but through `r`.
    fn hide_entries(&mut self, r: Link) -> (b: bool)
        requires
            old(self).inv(),
            r < old(self).hdr@.len(),
        ensures
            final(self).inv(),
            final(self).same_shape(old(self)),
            final(self).change == old(self).change,
            final(self).stack == old(self).stack,
            (final(self).pstate(), b) == trial_walk(
                old(self).pstate(),
                old(self).color@,
                old(self).aux@,
                r as int,
                r + 1,
                old(self).opt_start as int,
                old(self).primary as int,
                old(self).hdr@.len() as nat,
            ),
            final(self).color@ == old(self).color@,
            final(self).aux@ == old(self).aux@,
    {
        let n = self.hdr.len();
        let mut q = r + 1;
        let ghost target = trial_walk(
            self.pstate(),
            self.color@,
            self.aux@,
            r as int,
            q as int,
            self.opt_start as int,
            self.primary as int,
            n as nat,
        );
        let mut fuel = n;
        loop
            invariant
                self.inv(),
                self.same_shape(old(self)),
                self.change == old(self).change,
                self.stack == old(self).stack,
                n == self.hdr@.len(),
                r < n,
                q <= n,
                self.color@ == old(self).color@,
                self.aux@ == old(self).aux@,
                self.opt_start == old(self).opt_start,
                target == trial_walk(
                    old(self).pstate(),
                    old(self).color@,
                    old(self).aux@,
                    r as int,
                    r + 1,
                    old(self).opt_start as int,
                    old(self).primary as int,
                    old(self).hdr@.len() as nat,
                ),
                trial_walk(
                    self.pstate(),
                    self.color@,
                    self.aux@,
                    r as int,
                    q as int,
                    self.opt_start as int,
                    self.primary as int,
                    fuel as nat,
                ) == target,
            decreases fuel,
        {
            if fuel == 0 {
                return false;
            }
            let ghost s0 = self.pstate();
            let ghost q0 = q;
            fuel -= 1;
            let cc = self.top(q);
            if cc <= 0 {
                q = self.ulink(q);
                if q > r {
                    proof {
                        assert(trial_walk(s0, self.color@, self.aux@, r as int, q0 as int, self.opt_start as int, self.primary as int, (fuel + 1) as nat)
                            == trial_walk(s0, self.color@, self.aux@, r as int, q as int, self.opt_start as int, self.primary as int, fuel as nat));
                    }
                    continue;
                }
                return false;
            }
            let x = self.color_of(q);
            let mut p = self.dlink(cc as Link);
            let ghost mid = trial_column_walk(
                s0,
                self.color@,
                self.aux@,
                r as int,
                q as int,
                x,
                p as int,
                self.opt_start as int,
                self.primary as int,
                n as nat,
            );
            let mut f2 = n;
            while p >= self.opt_start && f2 > 0
                invariant
                    self.inv(),
                    self.same_shape(old(self)),
                    self.change == old(self).change,
                    self.stack == old(self).stack,
                    n == self.hdr@.len(),
                    r < n,
                    q < n,
                    p < n,
                    self.color@ == old(self).color@,
                    self.aux@ == old(self).aux@,
                    self.opt_start == old(self).opt_start,
                    target == trial_walk(
                        old(self).pstate(),
                        old(self).color@,
                        old(self).aux@,
                        r as int,
                        r + 1,
                        old(self).opt_start as int,
                        old(self).primary as int,
                        old(self).hdr@.len() as nat,
                    ),
                    (if mid.1 {
                        mid
                    } else {
                        trial_walk(
                            mid.0,
                            self.color@,
                            self.aux@,
                            r as int,
                            q + 1,
                            self.opt_start as int,
                            self.primary as int,
                            fuel as nat,
                        )
                    }) == target,
                    trial_column_walk(
                        self.pstate(),
                        self.color@,
                        self.aux@,
                        r as int,
                        q as int,
                        x,
                        p as int,
                        self.opt_start as int,
                        self.primary as int,
                        f2 as nat,
                    ) == mid,
                decreases f2,
            {
                let ghost t0 = self.pstate();
                let ghost p0 = p;
                f2 -= 1;
                if x > 0 && x == self.color_of(p) {
                    p = self.dlink(p);
                    proof {
                        assert(trial_column_walk(t0, self.color@, self.aux@, r as int, q as int, x, p0 as int, self.opt_start as int, self.primary as int, (f2 + 1) as nat)
                            == trial_column_walk(t0, self.color@, self.aux@, r as int, q as int, x, p as int, self.opt_start as int, self.primary as int, f2 as nat));
                    }
                    continue;
                }
                let mut qq = p + 1;
                let ghost inner = trial_opt_walk(t0, self.aux@, r as int, p as int, p + 1, self.primary as int, n as nat);
                let mut f3 = n;
                while qq != p && f3 > 0
                    invariant
                        self.inv(),
                        self.same_shape(old(self)),
                        self.change == old(self).change,
                        self.stack == old(self).stack,
                        n == self.hdr@.len(),
                        r < n,
                        q < n,
                        p < n,
                        qq <= n,
                        self.color@ == old(self).color@,
                        self.aux@ == old(self).aux@,
                        self.opt_start == old(self).opt_start,
                        target == trial_walk(
                            old(self).pstate(),
                            old(self).color@,
                            old(self).aux@,
                            r as int,
                            r + 1,
                            old(self).opt_start as int,
                            old(self).primary as int,
                            old(self).hdr@.len() as nat,
                        ),
                        (if mid.1 {
                            mid
                        } else {
                            trial_walk(
                                mid.0,
                                self.color@,
                                self.aux@,
                                r as int,
                                q + 1,
                                self.opt_start as int,
                                self.primary as int,
                                fuel as nat,
                            )
                        }) == target,
                        (if inner.1 {
                            trial_column_walk(t0, self.color@, self.aux@, r as int, q as int, x, p as int, self.opt_start as int, self.primary as int, (f2 + 1) as nat)
                        } else {
                            trial_column_walk(inner.0, self.color@, self.aux@, r as int, q as int, x, p_down(inner.0, p as int) as int, self.opt_start as int, self.primary as int, f2 as nat)
                        }) == mid,
                        trial_opt_walk(self.pstate(), self.aux@, r as int, p as int, qq as int, self.primary as int, f3 as nat)
                            == inner,
                        inner == trial_opt_walk(t0, self.aux@, r as int, p as int, p + 1, self.primary as int, n as nat),
                        t0.hdr.len() == n,
                        p >= self.opt_start,
                        !(x > 0 && x == p_color(self.color@, p as int)),
                    decreases f3,
                {
                    let ghost u0 = self.pstate();
                    let ghost qq0 = qq;
                    f3 -= 1;
                    let cc2 = self.top(qq);
                    if cc2 <= 0 {
                        qq = self.ulink(qq);
                        proof {
                            assert(trial_opt_walk(u0, self.aux@, r as int, p as int, qq0 as int, self.primary as int, (f3 + 1) as nat)
                                == trial_opt_walk(u0, self.aux@, r as int, p as int, qq as int, self.primary as int, f3 as nat));
                        }
                        continue;
                    }
                    let t = self.top(cc2 as Link).wrapping_sub(1);
                    let ac = if (cc2 as Link) < self.aux.len() {
                        self.aux[cc2 as Link]
                    } else {
                        0
                    };
                    if t == 0 && self.is_primary(cc2) && ac != r as Data {
                        proof {
                            assert(inner == (u0, true, qq as int));
                        }
                        self.unhide_entries(qq.wrapping_sub(1), p);
                        let p2 = self.ulink(p);
                        self.pass_2(p2, x);
                        self.backup(q.wrapping_sub(1), r);
                        proof {
                            let tw = trial_opt_walk(t0, self.aux@, r as int, p as int, p + 1, self.primary as int, n as nat);
                            assert(tw == inner);
                            assert(mid == trial_column_walk(t0, self.color@, self.aux@, r as int, q as int, x, p as int, self.opt_start as int, self.primary as int, (f2 + 1) as nat));
                            assert(mid.1);
                            assert(mid.0 == self.pstate());
                        }
                        return true;
                    }
                    self.set_top(cc2 as Link, t);
                    let ghost u1 = self.pstate();
                    assert(u1 =~= p_set_top(u0, cc2 as int, t));
                    let uu = self.ulink(qq);
                    let dd = self.dlink(qq);
                    self.set_dlink(uu, dd);
                    self.set_ulink(dd, uu);
                    assert(self.pstate() =~= p_set_up(p_set_down(u1, uu as int, dd as int), dd as int, uu as int));
                    qq += 1;
                }
                p = self.dlink(p);
            }
            q += 1;
        }
    }

    /// Delete option `r` from the columns of its items.
    fn really_delete_option(&mut self, r: Link)
        requires
            old(self).inv(),
            r < old(self).hdr@.len(),
        ensures
            final(self).inv(),
            final(self).same_shape(old(self)),
            final(self).change == old(self).change,
            final(self).stack == old(self).stack,
            final(self).pstate() == delete_walk(
                old(self).pstate(),
                r + 1,
                r as int,
                old(self).primary as int,
                old(self).hdr@.len() as nat,
            ),
            final(self).color@ == old(self).color@,
            final(self).aux@ == old(self).aux@,
    {
        let n = self.hdr.len();
        let ghost target = delete_walk(self.pstate(), r + 1, r as int, self.primary as int, n as nat);
        let mut p = r + 1;
        let mut fuel = n;
        loop
            invariant
                self.inv(),
                self.same_shape(old(self)),
                self.change == old(self).change,
                self.stack == old(self).stack,
                n == self.hdr@.len(),
                r < n,
                p <= n,
                self.color@ == old(self).color@,
                self.aux@ == old(self).aux@,
                delete_walk(self.pstate(), p as int, r as int, self.primary as int, fuel as nat) == target,
                target == delete_walk(
                    old(self).pstate(),
                    r + 1,
                    r as int,
                    old(self).primary as int,
                    old(self).hdr@.len() as nat,
                ),
            decreases fuel,
        {
            if fuel == 0 {
                return;
            }
            let ghost s0 = self.pstate();
            let ghost p0 = p;
            fuel -= 1;
            let cc = self.top(p);
            if cc <= 0 {
                p = self.ulink(p);
                proof {
                    assert(delete_walk(s0, p0 as int, r as int, self.primary as int, (fuel + 1) as nat) == delete_walk(
                        s0,
                        p as int,
                        r as int,
                        self.primary as int,
                        fuel as nat,
                    ));
                }
                continue;
            }
            let uu = self.ulink(p);
            let dd = self.dlink(p);
            self.set_dlink(uu, dd);
            self.set_ulink(dd, uu);
            let ghost s1 = self.pstate();
            assert(s1 =~= p_set_up(p_set_down(s0, uu as int, dd as int), dd as int, uu as int));
            let t = self.top(cc as Link).wrapping_sub(1);
            self.set_top(cc as Link, t);
            assert(self.pstate() =~= p_set_top(s1, cc as int, t));
            if t == 0 && self.is_primary(cc) {
                return;
            }
            if p == r {
                return;
            }
            p += 1;
        }
    }

    /// Remove item `c`, whose options all leave some primary item with no
    /// option: options with a primary item that became empty are kept,
    /// shortened; the others are deleted.
    fn remove_item(&mut self, c: Link) -> (r: Result<(), Error>)
        requires
            old(self).inv(),
        ensures
            final(self).inv(),
            final(self).same_shape(old(self)),
            final(self).stack == old(self).stack,
            r matches Err(e) ==> e matches Error::PrimaryNotInAnyOption(i) && 1 <= i <= old(self).primary,
            r is Ok ==> final(self).change,
            r is Err ==> final(self).change == old(self).change,
            r is Ok && c < old(self).hdr@.len() ==> final(self).hdr@[c as int] == 0 && final(self).up@[c as int]
                == c && final(self).down@[c as int] == c,
            ({
                let t = remove_item_walk(
                    old(self).pstate(),
                    old(self).color@,
                    c as int,
                    old(self).opt_start as int,
                    old(self).primary as int,
                );
                &&& final(self).pstate() == t.0
                &&& r == (match t.1 {
                    Some(i) => Err::<(), Error>(Error::PrimaryNotInAnyOption(i as usize)),
                    None => Ok::<(), Error>(()),
                })
            }),
            final(self).color@ == old(self).color@,
            final(self).aux@ == old(self).aux@,
    {
        let n = self.hdr.len();
        let ghost goal = remove_item_walk(
            self.pstate(),
            self.color@,
            c as int,
            self.opt_start as int,
            self.primary as int,
        );
        self.unhide_column(c);
        let mut r = self.dlink(c);
        let ghost target = remove_walk(self.pstate(), r as int, self.opt_start as int, self.primary as int, n as nat);
        let mut fuel = n;
        while r >= self.opt_start && fuel > 0
            invariant
                self.inv(),
                self.same_shape(old(self)),
                self.stack == old(self).stack,
                self.change == old(self).change,
                n == self.hdr@.len(),
                r < n,
                self.color@ == old(self).color@,
                self.aux@ == old(self).aux@,
                self.opt_start == old(self).opt_start,
                goal == remove_item_walk(
                    old(self).pstate(),
                    old(self).color@,
                    c as int,
                    old(self).opt_start as int,
                    old(self).primary as int,
                ),
                goal == (if target.1 is Some {
                    target
                } else {
                    (p_set_top(p_set_down(p_set_up(target.0, c as int, c as int), c as int, c as int), c as int, 0), None)
                }),
                remove_walk(self.pstate(), r as int, self.opt_start as int, self.primary as int, fuel as nat) == target,
            decreases fuel,
        {
            let ghost s0 = self.pstate();
            fuel -= 1;
            let rrr = self.dlink(r);
            let mut q = r + 1;
            let ghost found = find_walk(s0, r as int, r + 1, self.stack, n as nat);
            let mut f2 = n;
            while q != r && f2 > 0
                invariant
                    self.inv(),
                    self.pstate() == s0,
                    n == self.hdr@.len(),
                    r < n,
                    q <= n,
                    find_walk(s0, r as int, q as int, self.stack, f2 as nat) == found,
                decreases f2,
            {
                let ghost q0 = q;
                f2 -= 1;
                let cc = self.top(q);
                if cc <= 0 {
                    q = self.ulink(q);
                    proof {
                        assert(find_walk(s0, r as int, q0 as int, self.stack, (f2 + 1) as nat) == find_walk(
                            s0,
                            r as int,
                            q as int,
                            self.stack,
                            f2 as nat,
                        ));
                    }
                    continue;
                }
                if cc == self.stack {
                    f2 = 0;
                } else {
                    q += 1;
                }
            }
            if q != r {
                self.set_ulink(r, r + 1);
                self.set_dlink(r, r - 1);
                self.set_top(r, 0);
                assert(self.pstate() =~= p_set_top(p_set_down(p_set_up(s0, r as int, r + 1), r as int, r - 1), r as int, 0));
            } else {
                q = r + 1;
                let ghost rem = remove_opt_walk(s0, r as int, r + 1, self.primary as int, n as nat);
                let mut f3 = n;
                while q != r && f3 > 0
                    invariant
                        self.inv(),
                        self.same_shape(old(self)),
                        self.stack == old(self).stack,
                        self.change == old(self).change,
                        n == self.hdr@.len(),
                        r < n,
                        q <= n,
                        self.color@ == old(self).color@,
                        self.aux@ == old(self).aux@,
                        self.opt_start == old(self).opt_start,
                        goal == remove_item_walk(
                            old(self).pstate(),
                            old(self).color@,
                            c as int,
                            old(self).opt_start as int,
                            old(self).primary as int,
                        ),
                        goal == (if target.1 is Some {
                            target
                        } else {
                            (p_set_top(p_set_down(p_set_up(target.0, c as int, c as int), c as int, c as int), c as int, 0), None)
                        }),
                        (if rem.1 is Some {
                            rem
                        } else {
                            remove_walk(rem.0, rrr as int, self.opt_start as int, self.primary as int, fuel as nat)
                        }) == target,
                        remove_opt_walk(self.pstate(), r as int, q as int, self.primary as int, f3 as nat) == rem,
                    decreases f3,
                {
                    let ghost u0 = self.pstate();
                    let ghost q0 = q;
                    f3 -= 1;
                    let cc = self.top(q);
                    if cc <= 0 {
                        q = self.ulink(q);
                        proof {
                            assert(remove_opt_walk(u0, r as int, q0 as int, self.primary as int, (f3 + 1) as nat)
                                == remove_opt_walk(u0, r as int, q as int, self.primary as int, f3 as nat));
                        }
                        continue;
                    }
                    let t = self.top(cc as Link).wrapping_sub(1);
                    if t == 0 && self.is_primary(cc) {
                        proof {
                            assert(rem == (u0, Some(cc)));
                        }
                        return Err(Error::PrimaryNotInAnyOption(cc as usize));
                    }
                    self.set_top(cc as Link, t);
                    let ghost u1 = self.pstate();
                    assert(u1 =~= p_set_top(u0, cc as int, t));
                    let uu = self.ulink(q);
                    let dd = self.dlink(q);
                    self.set_dlink(uu, dd);
                    self.set_ulink(dd, uu);
                    assert(self.pstate() =~= p_set_up(p_set_down(u1, uu as int, dd as int), dd as int, uu as int));
                    q += 1;
                }
            }
            r = rrr;
        }
        let ghost s9 = self.pstate();
        self.set_ulink(c, c);
        self.set_dlink(c, c);
        self.set_top(c, 0);
        assert(self.pstate() =~= p_set_top(p_set_down(p_set_up(s9, c as int, c as int), c as int, c as int), c as int, 0));
        self.change = true;
        Ok(())
    }
}

/// The items `1..=k` (as indices from `0`) whose column is not empty and
/// that are primary (when `want`) or secondary.
pub open spec fn kept_items(hdr: Seq<Data>, primary: int, k: int, want: bool) -> Seq<Count>
    decreases k,
{
    if k <= 0 {
        Seq::empty()
    } else {
        let r = kept_items(hdr, primary, k - 1, want);
        if hdr[k] != 0 && (k <= primary) == want {
            r.push((k - 1) as Count)
        } else {
            r
        }
    }
}

/// The first primary item with an empty column, or `0` when there is
/// none among `1..=k`.
pub open spec fn first_empty(hdr: Seq<Data>, k: int) -> int
    decreases k,
{
    if k <= 0 {
        0
    } else if first_empty(hdr, k - 1) != 0 {
        first_empty(hdr, k - 1)
    } else if hdr[k] == 0 {
        k
    } else {
        0
    }
}

impl<R: Reduce> Preproc<R> {
    /// Reduce the options of item `itm`: when hiding its column leaves a
    /// primary item with no option, remove the item; otherwise delete each
    /// uncolored option of the column whose trial leaves some primary item
    /// with no option.
    fn reduce_options(&mut self, itm: Link) -> (r: Result<(), Error>)
        requires
            old(self).inv(),
        ensures
            final(self).inv(),
            final(self).same_shape(old(self)),
            r matches Err(e) ==> e matches Error::PrimaryNotInAnyOption(i) && 1 <= i <= old(self).primary,
            ({
                let t = reduce_walk(
                    old(self).pstate(),
                    old(self).aux@,
                    old(self).change,
                    old(self).color@,
                    itm as int,
                    old(self).opt_start as int,
                    old(self).primary as int,
                );
                &&& final(self).pstate() == t.0
                &&& final(self).aux@ == t.1
                &&& final(self).change == t.2
                &&& r == (match t.3 {
                    Some(i) => Err::<(), Error>(Error::PrimaryNotInAnyOption(i as usize)),
                    None => Ok::<(), Error>(()),
                })
            }),
            final(self).color@ == old(self).color@,
    {
        let n = self.hdr.len();
        self.stack = 0;
        assert(self.pstate() =~= PState { stack: 0, ..old(self).pstate() });
        self.hide_column(itm);
        if self.stack != 0 {
            return self.remove_item(itm);
        }
        let ghost s1 = self.pstate();
        let mut r = self.dlink(itm);
        let ghost target = try_column_walk(
            self.pstate(),
            self.aux@,
            self.change,
            self.color@,
            r as int,
            self.opt_start as int,
            self.primary as int,
            n as nat,
        );
        let mut fuel = n;
        while r >= self.opt_start && fuel > 0
            invariant
                self.inv(),
                self.same_shape(old(self)),
                n == self.hdr@.len(),
                r < n,
                self.color@ == old(self).color@,
                self.opt_start == old(self).opt_start,
                try_column_walk(
                    self.pstate(),
                    self.aux@,
                    self.change,
                    self.color@,
                    r as int,
                    self.opt_start as int,
                    self.primary as int,
                    fuel as nat,
                ) == target,
            decreases fuel,
        {
            let ghost s0 = self.pstate();
            let ghost a0 = self.aux@;
            let ghost c0 = self.change;
            fuel -= 1;
            let mut q = r - 1;
            let ghost qt = back_walk(s0, q as int, n as nat);
            let mut f2 = n;
            while q > 0 && self.dlink(q) == q - 1 && f2 > 0
                invariant
                    self.inv(),
                    self.pstate() == s0,
                    n == self.hdr@.len(),
                    q < n,
                    back_walk(s0, q as int, f2 as nat) == qt,
                decreases f2,
            {
                f2 -= 1;
                q -= 1;
            }
            if self.top(q) <= 0 && self.color_of(r) == 0 {
                q = r + 1;
                let ghost marks = mark_walk(s0, a0, r as int, r + 1, n as nat);
                let mut f3 = n;
                while f3 > 0
                    invariant
                        self.inv(),
                        self.same_shape(old(self)),
                        self.pstate() == s0,
                        self.change == c0,
                        self.color@ == old(self).color@,
                        self.opt_start == old(self).opt_start,
                        n == self.hdr@.len(),
                        r < n,
                        q <= n,
                        mark_walk(s0, self.aux@, r as int, q as int, f3 as nat) == marks,
                    decreases f3,
                {
                    let ghost m0 = self.aux@;
                    let ghost q0 = q;
                    f3 -= 1;
                    let cc = self.top(q);
                    if cc <= 0 {
                        q = self.ulink(q);
                        if q > r {
                            proof {
                                assert(mark_walk(s0, m0, r as int, q0 as int, (f3 + 1) as nat) == mark_walk(
                                    s0,
                                    m0,
                                    r as int,
                                    q as int,
                                    f3 as nat,
                                ));
                            }
                            continue;
                        }
                        f3 = 0;
                    } else {
                        if (cc as Link) < self.aux.len() {
                            self.aux.set(cc as Link, r as Data);
                        }
                        q += 1;
                    }
                }
                if !self.hide_entries(r) {
                    self.backup(r - 1, r);
                } else {
                    self.change = true;
                    let st = self.stack;
                    let ghost sh = self.pstate();
                    self.set_top(r, st);
                    self.stack = r as Data;
                    assert(self.pstate() =~= PState { stack: r as Data, ..p_set_top(sh, r as int, sh.stack) });
                }
            }
            r = self.dlink(r);
        }
        self.unhide_column(itm);
        let mut r = self.stack as Link;
        let ghost s3 = self.pstate();
        let ghost dtarget = delete_stack_walk(s3, itm as int, r as int, self.primary as int, n as nat);
        let mut fuel = n;
        while r != 0 && fuel > 0
            invariant
                self.inv(),
                self.same_shape(old(self)),
                n == self.hdr@.len(),
                r < n,
                self.color@ == old(self).color@,
                delete_stack_walk(self.pstate(), itm as int, r as int, self.primary as int, fuel as nat) == dtarget,
                self.aux@ == target.1,
                self.change == target.2,
            decreases fuel,
        {
            fuel -= 1;
            let rr = self.top(r);
            self.set_top(r, itm as Data);
            self.really_delete_option(r);
            r = if 0 <= rr && (rr as Link) < n {
                rr as Link
            } else {
                0
            };
        }
        Ok(())
    }

    /// The items whose column is not empty, as indices from `0`: primary,
    /// then secondary.
    fn get_items(&self) -> (r: (Vec<Count>, Vec<Count>))
        requires
            self.inv(),
        ensures
            r.0@ == kept_items(self.hdr@, self.primary as int, self.len as int, true),
            r.1@ == kept_items(self.hdr@, self.primary as int, self.len as int, false),
    {
        let mut ps: Vec<Count> = Vec::new();
        let mut ss: Vec<Count> = Vec::new();
        let mut c: usize = 1;
        while c <= self.len
            invariant
                self.inv(),
                1 <= c <= self.len + 1,
                ps@ == kept_items(self.hdr@, self.primary as int, c - 1, true),
                ss@ == kept_items(self.hdr@, self.primary as int, c - 1, false),
            decreases self.len + 1 - c,
        {
            if self.hdr[c] != 0 {
                if c <= self.primary {
                    ps.push(c - 1);
                } else {
                    ss.push(c - 1);
                }
            }
            c += 1;
        }
        (ps, ss)
    }

    /// The option of entry `p`: its number, the data of its entries
    /// (secondary items moved down by `sd`) and whether it holds a primary
    /// item.
    fn get_option(&self, p: Link, sd: Count) -> (r: (Count, Vec<R::OData>, bool))
        requires
            self.inv(),
        ensures
            (r.0, r.1@, r.2) == option_of::<R>(self.pstate(), self.color@, p as int, self.primary as int, sd),
    {
        let ghost goal = option_of::<R>(self.pstate(), self.color@, p as int, self.primary as int, sd);
        let n = self.hdr.len();
        let mut pp = if p > 0 && p < n {
            p - 1
        } else {
            0
        };
        let ghost st = option_start(self.pstate(), pp as int, n as nat);
        assert(goal == scan_option::<R>(self.pstate(), self.color@, st + 1, self.primary as int, sd, (n + 1) as nat, Seq::empty(), false));
        let mut fuel = n;
        while pp > 0 && (self.top(pp) > 0 || self.dlink(pp) < pp) && fuel > 0
            invariant
                self.inv(),
                n == self.hdr@.len(),
                pp < n,
                option_start(self.pstate(), pp as int, fuel as nat) == st,
                goal == option_of::<R>(self.pstate(), self.color@, p as int, self.primary as int, sd),
                goal == scan_option::<R>(self.pstate(), self.color@, st + 1, self.primary as int, sd, (n + 1) as nat, Seq::empty(), false),
            decreases fuel,
        {
            fuel -= 1;
            pp -= 1;
        }
        let mut q = pp + 1;
        let mut o: Vec<R::OData> = Vec::new();
        let mut has_primary = false;
        let ghost target = scan_option::<R>(
            self.pstate(),
            self.color@,
            q as int,
            self.primary as int,
            sd,
            (n + 1) as nat,
            Seq::empty(),
            false,
        );
        let mut f2 = n + 1;
        while f2 > 0
            invariant
                self.inv(),
                n == self.hdr@.len(),
                q <= n,
                scan_option::<R>(self.pstate(), self.color@, q as int, self.primary as int, sd, f2 as nat, o@, has_primary)
                    == target,
                target == goal,
                goal == option_of::<R>(self.pstate(), self.color@, p as int, self.primary as int, sd),
            decreases f2,
        {
            f2 -= 1;
            let itm = self.top(q);
            if itm < 0 {
                return ((0isize.wrapping_sub(itm).wrapping_sub(1)) as Count, o, has_primary);
            }
            if itm > 0 {
                if itm <= self.primary as Data {
                    has_primary = true;
                }
                let it = if itm > self.primary as Data {
                    itm.wrapping_sub(sd as Data)
                } else {
                    itm
                };
                let clr = self.color_of(q);
                o.push(R::get_opt_data(it.wrapping_sub(1) as Count, clr));
            }
            if q >= n {
                return (0, o, has_primary);
            }
            q += 1;
        }
        (0, o, has_primary)
    }

    /// The options left that hold a primary item, as their numbers and
    /// their data: each found from the column of its first entry, the
    /// items renumbered without the items removed.
    fn get_options(&self) -> (r: (Vec<Count>, Vec<Vec<R::OData>>))
        requires
            self.inv(),
        ensures
            r.0@.len() == r.1@.len(),
            (r.0@, r.1@.map_values(|v: Vec<R::OData>| v@)) == all_options::<R>(
                self.pstate(),
                self.color@,
                1,
                self.len as int,
                self.opt_start as int,
                self.primary as int,
                shift_of(self.hdr@, self.primary as int, self.len as int),
                Seq::empty(),
                Seq::empty(),
            ),
    {
        let n = self.hdr.len();
        let (ps, ss) = self.get_items();
        let sd: Count = if ss.len() == 0 {
            0
        } else if ps.len() == 0 {
            ss[0]
        } else {
            ss[0].wrapping_sub(ps[ps.len() - 1]).wrapping_sub(1)
        };
        assert(sd == shift_of(self.hdr@, self.primary as int, self.len as int));
        let mut idx: Vec<Count> = Vec::new();
        let mut os: Vec<Vec<R::OData>> = Vec::new();
        let ghost target = all_options::<R>(
            self.pstate(),
            self.color@,
            1,
            self.len as int,
            self.opt_start as int,
            self.primary as int,
            sd,
            Seq::empty(),
            Seq::empty(),
        );
        assert(os@.map_values(|v: Vec<R::OData>| v@) =~= Seq::<Seq<R::OData>>::empty());
        let mut c: usize = 1;
        while c <= self.len
            invariant
                self.inv(),
                n == self.hdr@.len(),
                1 <= c <= self.len + 1,
                idx@.len() == os@.len(),
                sd == shift_of(self.hdr@, self.primary as int, self.len as int),
                target == all_options::<R>(
                    self.pstate(),
                    self.color@,
                    1,
                    self.len as int,
                    self.opt_start as int,
                    self.primary as int,
                    shift_of(self.hdr@, self.primary as int, self.len as int),
                    Seq::empty(),
                    Seq::empty(),
                ),
                all_options::<R>(
                    self.pstate(),
                    self.color@,
                    c as int,
                    self.len as int,
                    self.opt_start as int,
                    self.primary as int,
                    sd,
                    idx@,
                    os@.map_values(|v: Vec<R::OData>| v@),
                ) == target,
            decreases self.len + 1 - c,
        {
            let ghost idx0 = idx@;
            let ghost os0 = os@.map_values(|v: Vec<R::OData>| v@);
            if self.hdr[c] != 0 {
                let mut r = self.dlink(c);
                let ghost col = column_options::<R>(
                    self.pstate(),
                    self.color@,
                    r as int,
                    self.opt_start as int,
                    self.primary as int,
                    sd,
                    n as nat,
                    idx0,
                    os0,
                );
                let mut fuel = n;
                while r >= self.opt_start && fuel > 0
                    invariant
                        self.inv(),
                        n == self.hdr@.len(),
                        r < n,
                        idx@.len() == os@.len(),
                        column_options::<R>(
                            self.pstate(),
                            self.color@,
                            r as int,
                            self.opt_start as int,
                            self.primary as int,
                            sd,
                            fuel as nat,
                            idx@,
                            os@.map_values(|v: Vec<R::OData>| v@),
                        ) == col,
                    decreases fuel,
                {
                    let ghost i1 = idx@;
                    let ghost o1 = os@.map_values(|v: Vec<R::OData>| v@);
                    fuel -= 1;
                    let mut q = r - 1;
                    let ghost qt = back_walk(self.pstate(), q as int, n as nat);
                    let mut f2 = n;
                    while q > 0 && self.dlink(q) == q - 1 && f2 > 0
                        invariant
                            self.inv(),
                            n == self.hdr@.len(),
                            q < n,
                            back_walk(self.pstate(), q as int, f2 as nat) == qt,
                        decreases f2,
                    {
                        f2 -= 1;
                        q -= 1;
                    }
                    if self.top(q) <= 0 {
                        let opt = self.get_option(r, sd);
                        if opt.2 {
                            idx.push(opt.0);
                            os.push(opt.1);
                            assert(os@.map_values(|v: Vec<R::OData>| v@) =~= o1.push(opt.1@));
                        }
                    }
                    r = self.dlink(r);
                }
            }
            c += 1;
        }
        (idx, os)
    }

    /// Reduce the problem for at most `max_rounds` rounds (a round without
    /// change ends it), then give the number of primary and secondary items
    /// left, the options left (items renumbered from `0`) and their numbers
    /// in the problem. Fails with `PrimaryNotInAnyOption` for a primary
    /// item with no option, at first or once reduced.
    pub fn reduce(&mut self, max_rounds: usize) -> (r: Result<(Count, Count, Vec<Vec<R::OData>>, Vec<Count>), Error>)
        requires
            old(self).inv(),
        ensures
            final(self).inv(),
            !old(self).is_valid() ==> r == Err::<(Count, Count, Vec<Vec<R::OData>>, Vec<Count>), Error>(Error::BadLinks),
            old(self).is_valid() && first_empty(old(self).tops(), old(self).primary_count() as int) != 0 ==> r == Err::<(Count, Count, Vec<Vec<R::OData>>, Vec<Count>), Error>(
                Error::PrimaryNotInAnyOption(first_empty(old(self).tops(), old(self).primary_count() as int) as usize),
            ),
            r matches Err(e) ==> e matches Error::BadLinks || (e matches Error::PrimaryNotInAnyOption(i) && 1 <= i <= old(self).primary_count()),
            r matches Ok((np, ns, os, idx)) ==> {
                &&& np == kept_items(final(self).tops(), final(self).primary_count() as int, final(self).item_count() as int, true).len()
                &&& ns == kept_items(final(self).tops(), final(self).primary_count() as int, final(self).item_count() as int, false).len()
                &&& os@.len() == idx@.len()
                &&& final(self).rounds_made() <= max_rounds || final(self).rounds_made()
                    == old(self).rounds_made()
            },
            final(self).item_count() == old(self).item_count(),
            final(self).primary_count() == old(self).primary_count(),
            final(self).colors() == old(self).colors(),
            old(self).is_valid() && first_empty(old(self).tops(), old(self).primary_count() as int) == 0 ==> {
                let t = rounds_walk(
                    old(self).pstate(),
                    old(self).marks(),
                    old(self).colors(),
                    old(self).rounds_made() as int,
                    max_rounds as int,
                    old(self).item_count() as int,
                    old(self).item_count() + 2,
                    old(self).primary_count() as int,
                );
                &&& final(self).pstate() == t.0
                &&& final(self).marks() == t.1
                &&& final(self).rounds_made() == t.2
                &&& match t.3 {
                    Some(i) => r == Err::<(Count, Count, Vec<Vec<R::OData>>, Vec<Count>), Error>(
                        Error::PrimaryNotInAnyOption(i as usize),
                    ),
                    None => r matches Ok((np, ns, os, idx)) && (idx@, os@.map_values(|v: Vec<R::OData>| v@))
                        == all_options::<R>(
                        final(self).pstate(),
                        final(self).colors(),
                        1,
                        final(self).item_count() as int,
                        final(self).item_count() + 2,
                        final(self).primary_count() as int,
                        shift_of(final(self).tops(), final(self).primary_count() as int, final(self).item_count() as int),
                        Seq::empty(),
                        Seq::empty(),
                    ),
                }
            },
    {
        if !self.valid {
            return Err(Error::BadLinks);
        }
        let mut p_itm: usize = 1;
        while p_itm <= self.primary
            invariant
                self.inv(),
                self.valid,
                1 <= p_itm <= self.primary + 1,
                first_empty(self.hdr@, p_itm - 1) == 0,
                self.hdr == old(self).hdr,
                self.primary == old(self).primary,
            decreases self.primary + 1 - p_itm,
        {
            if self.hdr[p_itm] == 0 {
                proof {
                    assert(first_empty(self.hdr@, p_itm as int) == p_itm);
                    lemma_first_empty_stays(self.hdr@, p_itm as int, self.primary as int);
                }
                return Err(Error::PrimaryNotInAnyOption(p_itm));
            }
            p_itm += 1;
        }
        let ghost start = *self;
        let ghost target = rounds_walk(
            self.pstate(),
            self.aux@,
            self.color@,
            self.rounds as int,
            max_rounds as int,
            self.len as int,
            self.len + 2,
            self.primary as int,
        );
        let mut go = true;
        while go && self.rounds < max_rounds
            invariant
                self.inv(),
                old(self).valid,
                first_empty(old(self).hdr@, old(self).primary as int) == 0,
                self.len == start.len,
                self.primary == start.primary,
                self.valid,
                self.rounds <= max_rounds || self.rounds == start.rounds,
                start.rounds == old(self).rounds,
                start.len == old(self).len,
                start.primary == old(self).primary,
                self.color@ == old(self).color@,
                target == rounds_walk(
                    old(self).pstate(),
                    old(self).aux@,
                    old(self).color@,
                    old(self).rounds as int,
                    max_rounds as int,
                    old(self).len as int,
                    old(self).len + 2,
                    old(self).primary as int,
                ),
                (if go {
                    rounds_walk(
                        self.pstate(),
                        self.aux@,
                        self.color@,
                        self.rounds as int,
                        max_rounds as int,
                        self.len as int,
                        self.len + 2,
                        self.primary as int,
                    )
                } else {
                    (self.pstate(), self.aux@, self.rounds as int, None)
                }) == target,
            decreases max_rounds - self.rounds,
        {
            self.rounds += 1;
            self.change = false;
            let ghost r0 = self.rounds;
            let ghost rt = round_walk(
                self.pstate(),
                self.aux@,
                false,
                self.color@,
                1,
                self.len as int,
                self.len + 2,
                self.primary as int,
            );
            let mut itm: usize = 1;
            while itm <= self.len
                invariant
                    self.inv(),
                    self.rounds == r0,
                    r0 <= max_rounds,
                    start.len == old(self).len,
                    start.primary == old(self).primary,
                    old(self).valid,
                    first_empty(old(self).hdr@, old(self).primary as int) == 0,
                    self.len == start.len,
                    self.primary == start.primary,
                    self.valid,
                    self.rounds <= max_rounds,
                    1 <= itm <= self.len + 1,
                    self.color@ == old(self).color@,
                    target == rounds_walk(
                        old(self).pstate(),
                        old(self).aux@,
                        old(self).color@,
                        old(self).rounds as int,
                        max_rounds as int,
                        old(self).len as int,
                        old(self).len + 2,
                        old(self).primary as int,
                    ),
                    (if rt.3 is Some || !rt.2 {
                        (rt.0, rt.1, r0 as int, rt.3)
                    } else {
                        rounds_walk(
                            rt.0,
                            rt.1,
                            self.color@,
                            r0 as int,
                            max_rounds as int,
                            self.len as int,
                            self.len + 2,
                            self.primary as int,
                        )
                    }) == target,
                    round_walk(
                        self.pstate(),
                        self.aux@,
                        self.change,
                        self.color@,
                        itm as int,
                        self.len as int,
                        self.len + 2,
                        self.primary as int,
                    ) == rt,
                decreases self.len + 1 - itm,
            {
                if self.hdr[itm] != 0 {
                    let res = self.reduce_options(itm);
                    if let Err(e) = res {
                        return Err(e);
                    }
                }
                itm += 1;
            }
            if !self.change {
                go = false;
            }
        }
        let is = self.get_items();
        let np = is.0.len();
        let ns = is.1.len();
        let os = self.get_options();
        Ok((np, ns, os.1, os.0))
    }
}

/// Once a primary item with an empty column is found, it stays the first.
pub proof fn lemma_first_empty_stays(hdr: Seq<Data>, k: int, m: int)
    requires
        1 <= k <= m,
        first_empty(hdr, k) != 0,
    ensures
        first_empty(hdr, m) == first_empty(hdr, k),
    decreases m - k,
{
    if k < m {
        lemma_first_empty_stays(hdr, k, m - 1);
    }
}

} // verus!
