//! Dancing links: exact cover (X), exact cover with colors (C),
//! multiplicities (M) and both (MC), after Knuth's algorithms in
//! TAOCP 7.2.2.1.

pub mod construct;
pub mod covering;
pub mod c;
pub mod chooser;
pub mod dispatch;
pub mod fresh;
pub mod hiding;
pub mod levels;
pub mod links;
pub mod lists;
pub mod m;
pub mod mc;
pub mod omino;
pub mod purity;
pub mod p;
pub mod solver;
pub mod spec_text;
pub mod steps;
pub mod x;


use vstd::prelude::*;

pub use crate::solver::Solver;
pub use crate::spec_text::Spec;

use crate::links::{Links, LinksV};

verus! {

/// Index of a node in the item or option arrays.
pub type Link = usize;

/// A number of items or nodes.
pub type Count = usize;

/// Signed node data: lengths, tops and colors.
pub type Data = isize;

/// One step of the xorshift generator.
pub open spec fn xorshift(x: u32) -> u32 {
    let a = x ^ (x << 13u32);
    let b = a ^ (a >> 17u32);
    b ^ (b << 5u32)
}

/// The first output of the generator from `state` that is below `t`, looked
/// for during at most `fuel` further steps.
pub open spec fn draw_below(state: u32, t: u32, fuel: nat) -> u32
    decreases fuel,
{
    let r = xorshift(state);
    if t > r || fuel == 0 {
        r
    } else {
        draw_below(r, t, (fuel - 1) as nat)
    }
}

/// The number of steps after which the generator has gone through every
/// non-zero state.
pub open spec fn draw_fuel() -> nat {
    0x1_0000_0000
}

/// The rejection threshold of `uniform(max)`: the largest multiple of `max`
/// not above `2^31`.
pub open spec fn threshold(max: u32) -> u32 {
    (0x8000_0000u32 - (0x8000_0000u32 % max)) as u32
}

/// A xorshift32 pseudo-random generator.
pub struct Rng {
    state: u32,
}

impl View for Rng {
    type V = u32;

    closed spec fn view(&self) -> u32 {
        self.state
    }
}

impl Rng {
    /// A generator started at a non-zero `state`.
    pub fn new(state: u32) -> (r: Rng)
        requires
            state != 0,
        ensures
            r@ == state,
    {
        Rng { state }
    }

    /// The next number: one xorshift step, which also becomes the state.
    pub fn next(&mut self) -> (r: u32)
        ensures
            r == xorshift(old(self)@),
            final(self)@ == r,
    {
        let mut x = self.state;
        x ^= x << 13u32;
        x ^= x >> 17u32;
        x ^= x << 5u32;
        self.state = x;
        x
    }

    /// A number below `max`, by rejection: draw until the number is below
    /// the largest multiple of `max` not above `2^31`, and reduce it modulo
    /// `max`. The draws stop after `2^32` steps, by which a generator with a
    /// non-zero state has taken every non-zero value.
    pub fn uniform(&mut self, max: u32) -> (r: u32)
        requires
            0 < max <= 0x8000_0000,
        ensures
            final(self)@ == draw_below(old(self)@, threshold(max), draw_fuel()),
            r == final(self)@ % max,
            r < max,
    {
        let t = 0x8000_0000u32 - (0x8000_0000u32 % max);
        let ghost target = draw_below(self@, t, draw_fuel());
        let mut fuel: u64 = 0x1_0000_0000;
        let mut r: u32 = 0;
        loop
            invariant_except_break
                fuel <= 0x1_0000_0000,
                draw_below(self@, t, fuel as nat) == target,
            ensures
                self@ == target,
                r == self@,
            decreases fuel,
        {
            r = self.next();
            if t > r || fuel == 0 {
                break;
            }
            fuel -= 1;
        }
        r % max
    }
}

/// The order in which the entries of an option join their columns: at the
/// bottom, or at a random place.
pub enum OptOrder {
    Sequential,
    Rnd(Rng),
}

/// The errors of reading a problem.
#[derive(Debug, Clone, Copy, PartialEq, Eq)]
pub enum Error {
    NoItems,
    NoOptions,
    TooManySeparators,
    NoSecondaryItems,
    DuplicateItemNames,
    InvalidItemName,
    InvalidItem,
    DuplicateItemsInOption,
    TooManyColorSeparators,
    ColorNotSingleChar,
    ColorOnPrimary,
    TooManyMultiplicitySeparators,
    TooManyBoundSeparators,
    NonNumericBound,
    PrimaryNotInAnyOption(usize),
    TooLarge,
    BadLinks,
}

/// The words that say what went wrong.
pub open spec fn error_text(e: Error) -> Seq<char> {
    match e {
        Error::NoItems => "No items specified"@,
        Error::NoOptions => "No options specified"@,
        Error::TooManySeparators => "Too many '|' separators"@,
        Error::NoSecondaryItems => "No seecondary items specified"@,
        Error::DuplicateItemNames => "Duplicate item names"@,
        Error::InvalidItemName => "Invalid item name"@,
        Error::InvalidItem => "Invalid item"@,
        Error::DuplicateItemsInOption => "Duplicate items in option"@,
        Error::TooManyColorSeparators => "Too many ':' separators"@,
        Error::ColorNotSingleChar => "Color must be a single character"@,
        Error::ColorOnPrimary => "Color on primary item"@,
        Error::TooManyMultiplicitySeparators => "Too many '|' (multiplicity) separators"@,
        Error::TooManyBoundSeparators => "Too many ':' (multiplicity) separators"@,
        Error::NonNumericBound => "non-numeric bound"@,
        Error::PrimaryNotInAnyOption(_) => "Primary item is not in any option"@,
        Error::TooLarge => "Too many nodes"@,
        Error::BadLinks => "Links out of range"@,
    }
}

impl Error {
    /// What went wrong, in words.
    pub fn message(&self) -> (r: &'static str)
        ensures
            r@ == error_text(*self),
    {
        match self {
            Error::NoItems => "No items specified",
            Error::NoOptions => "No options specified",
            Error::TooManySeparators => "Too many '|' separators",
            Error::NoSecondaryItems => "No seecondary items specified",
            Error::DuplicateItemNames => "Duplicate item names",
            Error::InvalidItemName => "Invalid item name",
            Error::InvalidItem => "Invalid item",
            Error::DuplicateItemsInOption => "Duplicate items in option",
            Error::TooManyColorSeparators => "Too many ':' separators",
            Error::ColorNotSingleChar => "Color must be a single character",
            Error::ColorOnPrimary => "Color on primary item",
            Error::TooManyMultiplicitySeparators => "Too many '|' (multiplicity) separators",
            Error::TooManyBoundSeparators => "Too many ':' (multiplicity) separators",
            Error::NonNumericBound => "non-numeric bound",
            Error::PrimaryNotInAnyOption(_) => "Primary item is not in any option",
            Error::TooLarge => "Too many nodes",
            Error::BadLinks => "Links out of range",
        }
    }
}

/// The dancing operations of a problem, over its nodes.
pub trait Dance {
    /// The nodes of the problem.
    spec fn dance_view(&self) -> LinksV;

    /// The nodes, to read.
    fn links(&self) -> (r: &Links)
        ensures
            r@ == self.dance_view(),
    ;

    /// The number of updates made so far.
    fn updates(&self) -> (r: isize)
        ensures
            r == self.dance_view().updates,
    ;

    /// Set the number of updates.
    fn set_updates(&mut self, v: isize)
        ensures
            final(self).dance_view() == (LinksV { updates: v, ..old(self).dance_view() }),
    ;

    /// Cover item `i`.
    fn cover(&mut self, i: Link)
        requires
            old(self).dance_view().wf(),
            old(self).dance_view().net.is_hdr(i as int),
        ensures
            final(self).dance_view() == old(self).dance_view().cover(i as int),
            final(self).dance_view().wf(),
    ;

    /// Commit entry `p` of item `j`.
    fn commit(&mut self, p: Link, j: Link)
        requires
            old(self).dance_view().wf(),
            old(self).dance_view().net.is_opt(p as int),
            old(self).dance_view().net.is_hdr(j as int),
        ensures
            final(self).dance_view() == old(self).dance_view().commit(p as int, j as int),
            final(self).dance_view().wf(),
    ;

    /// Uncover item `i`.
    fn uncover(&mut self, i: Link)
        requires
            old(self).dance_view().wf(),
            old(self).dance_view().net.is_hdr(i as int),
        ensures
            final(self).dance_view() == old(self).dance_view().uncover(i as int),
            final(self).dance_view().wf(),
    ;

    /// Uncommit entry `p` of item `j`.
    fn uncommit(&mut self, p: Link, j: Link)
        requires
            old(self).dance_view().wf(),
            old(self).dance_view().net.is_opt(p as int),
            old(self).dance_view().net.is_hdr(j as int),
        ensures
            final(self).dance_view() == old(self).dance_view().uncommit(p as int, j as int),
            final(self).dance_view().wf(),
    ;

    /// Hide the option of entry `p`.
    fn hide_option(&mut self, p: Link)
        requires
            old(self).dance_view().wf(),
            old(self).dance_view().net.is_opt(p as int),
        ensures
            final(self).dance_view() == old(self).dance_view().hide_option(p as int),
            final(self).dance_view().wf(),
    ;

    /// Unhide the option of entry `p`.
    fn unhide(&mut self, p: Link)
        requires
            old(self).dance_view().wf(),
            old(self).dance_view().net.is_opt(p as int),
        ensures
            final(self).dance_view() == old(self).dance_view().unhide(p as int),
            final(self).dance_view().wf(),
    ;

    /// The branching degree of item `i`.
    fn branch_degree(&self, i: Link) -> (r: Data)
        requires
            self.dance_view().wf(),
            self.dance_view().net.is_hdr(i as int),
        ensures
            r == self.dance_view().degree(i as int),
    ;
}

/// The steps of the search of a problem.
pub trait Solve: Dance {
    /// Entering a new level.
    fn enter_level(&mut self, i: Link, l: Count, xl: Link)
        ensures
            final(self).dance_view() == old(self).dance_view().enter(),
    ;

    /// Before branching on item `i` at level `l`, whose first entry is `xl`.
    fn prepare_to_branch(&mut self, i: Link, l: Count, xl: Link)
        requires
            old(self).dance_view().wf(),
            old(self).dance_view().net.is_hdr(i as int),
            old(self).dance_view().net.multi ==> l < old(self).dance_view().ft.len(),
        ensures
            final(self).dance_view() == old(self).dance_view().prepare(i as int, l as int, xl),
            final(self).dance_view().wf(),
            final(self).dance_view().net.same_frame(old(self).dance_view().net),
            final(self).dance_view().ft.len() == old(self).dance_view().ft.len(),
    ;

    /// Try entry `xl` of item `i` at level `l`.
    fn try_item(&mut self, i: Link, l: Count, xl: Link) -> (r: bool)
        requires
            old(self).dance_view().wf(),
            old(self).dance_view().net.is_hdr(i as int),
            old(self).dance_view().net.is_col(xl as int),
            old(self).dance_view().net.col_of(xl as int) == i,
        ensures
            r == old(self).dance_view().try_ok(i as int, xl as int),
            final(self).dance_view() == old(self).dance_view().try_entry(i as int, xl as int),
            final(self).dance_view().wf(),
            final(self).dance_view().net.same_frame(old(self).dance_view().net),
            final(self).dance_view().ft.len() == old(self).dance_view().ft.len(),
    ;

    /// Leave entry `xl` of item `i` at level `l` for the next one.
    fn try_again(&mut self, i: Link, l: Count, xl: &mut Link) -> (r: bool)
        requires
            old(self).dance_view().wf(),
            old(self).dance_view().net.is_col(*old(xl) as int),
            *old(xl) > old(self).dance_view().net.len ==> old(self).dance_view().net.is_hdr(
                i as int,
            ) && old(self).dance_view().net.col_of(*old(xl) as int) == i,
        ensures
            ({
                let t = old(self).dance_view().retry(i as int, l as int, *old(xl) as int);
                &&& final(self).dance_view() == t.0
                &&& r == t.1
                &&& *final(xl) == t.2
            }),
            final(self).dance_view().net.is_col(*final(xl) as int),
            final(self).dance_view().wf(),
            final(self).dance_view().net.same_frame(old(self).dance_view().net),
            final(self).dance_view().ft.len() == old(self).dance_view().ft.len(),
    ;

    /// Restore item `i` at level `l`.
    fn restore_item(&mut self, i: Link, l: Count, xl: Link)
        requires
            old(self).dance_view().wf(),
            old(self).dance_view().net.is_hdr(i as int),
        ensures
            final(self).dance_view() == old(self).dance_view().restore(i as int, l as int),
            final(self).dance_view().wf(),
            final(self).dance_view().net.same_frame(old(self).dance_view().net),
            final(self).dance_view().ft.len() == old(self).dance_view().ft.len(),
    ;
}

/// Read access to the item nodes of a problem.
pub trait Items {
    /// The left links of the item nodes.
    spec fn lefts_of(&self) -> Seq<Link>;

    /// The right links of the item nodes.
    spec fn rights_of(&self) -> Seq<Link>;

    /// The number of primary items.
    spec fn primary_of(&self) -> Count;

    /// The number of items.
    spec fn len_of(&self) -> Count;

    /// The left link of item node `i`.
    fn llink(&self, i: Link) -> (r: Link)
        requires
            i < self.lefts_of().len(),
        ensures
            r == self.lefts_of()[i as int],
    ;

    /// The right link of item node `i`.
    fn rlink(&self, i: Link) -> (r: Link)
        requires
            i < self.rights_of().len(),
        ensures
            r == self.rights_of()[i as int],
    ;

    /// The number of primary items.
    fn primary(&self) -> (r: Count)
        ensures
            r == self.primary_of(),
    ;

    /// The number of items.
    fn len(&self) -> (r: Count)
        ensures
            r == self.len_of(),
    ;
}

/// Read access to the bounds of item nodes with multiplicities.
pub trait ItemsM: Items {
    /// The bounds of the item nodes.
    spec fn bounds_of(&self) -> Seq<Data>;

    /// The slacks of the item nodes.
    spec fn slacks_of(&self) -> Seq<Data>;

    /// The bound of item `i`.
    fn bound(&self, i: Link) -> (r: Data)
        requires
            i < self.bounds_of().len(),
        ensures
            r == self.bounds_of()[i as int],
    ;

    /// The slack of item `i`.
    fn slack(&self, i: Link) -> (r: Data)
        requires
            i < self.slacks_of().len(),
        ensures
            r == self.slacks_of()[i as int],
    ;
}

/// Read access to the option nodes of a problem.
pub trait Opts {
    /// The header fields of the option nodes.
    spec fn hdrs_of(&self) -> Seq<Data>;

    /// The up links of the option nodes.
    spec fn ups_of(&self) -> Seq<Link>;

    /// The down links of the option nodes.
    spec fn downs_of(&self) -> Seq<Link>;

    /// The length of column `i`.
    fn len(&self, i: Link) -> (r: Data)
        requires
            i < self.hdrs_of().len(),
        ensures
            r == self.hdrs_of()[i as int],
    ;

    /// The item of entry `i`, or minus an option's number for a spacer.
    fn top(&self, i: Link) -> (r: Data)
        requires
            i < self.hdrs_of().len(),
        ensures
            r == self.hdrs_of()[i as int],
    ;

    /// The up link of option node `i`.
    fn ulink(&self, i: Link) -> (r: Link)
        requires
            i < self.ups_of().len(),
        ensures
            r == self.ups_of()[i as int],
    ;

    /// The down link of option node `i`.
    fn dlink(&self, i: Link) -> (r: Link)
        requires
            i < self.downs_of().len(),
        ensures
            r == self.downs_of()[i as int],
    ;
}

/// Read access to the colors of option nodes.
pub trait OptsC: Opts {
    /// The colors of the option nodes.
    spec fn colors_of(&self) -> Seq<Data>;

    /// The color of option node `i`.
    fn color(&self, i: Link) -> (r: Data)
        requires
            i < self.colors_of().len(),
        ensures
            r == self.colors_of()[i as int],
    ;
}

/// The steps of algorithm C on a problem with colors.
pub trait DanceC: Dance {
    /// Purify entry `p`.
    fn purify(&mut self, p: Link)
        requires
            old(self).dance_view().wf(),
            old(self).dance_view().net.is_opt(p as int),
        ensures
            final(self).dance_view() == old(self).dance_view().purify(p as int),
            final(self).dance_view().wf(),
    ;

    /// Unpurify entry `p`.
    fn unpurify(&mut self, p: Link)
        requires
            old(self).dance_view().wf(),
            old(self).dance_view().net.is_opt(p as int),
        ensures
            final(self).dance_view() == old(self).dance_view().unpurify(p as int),
            final(self).dance_view().wf(),
    ;
}

/// The steps of algorithm M on a problem with multiplicities.
pub trait DanceM: Dance {
    /// Tweak entry `x` of item `p` away.
    fn tweak(&mut self, x: Link, p: Link)
        requires
            old(self).dance_view().wf(),
            old(self).dance_view().net.is_opt(x as int),
            old(self).dance_view().net.is_hdr(p as int),
            old(self).dance_view().net.col_of(x as int) == p,
        ensures
            final(self).dance_view() == old(self).dance_view().tweak(x as int, p as int),
            final(self).dance_view().wf(),
    ;

    /// Undo the tweaks of level `l`.
    fn untweak(&mut self, l: Count, unblock: bool)
        requires
            old(self).dance_view().wf(),
            l < old(self).dance_view().ft.len(),
            old(self).dance_view().net.is_col(old(self).dance_view().ft[l as int] as int),
        ensures
            final(self).dance_view() == old(self).dance_view().untweak(l as int, unblock),
            final(self).dance_view().wf(),
    ;

    /// The first tweaks of each level.
    fn ft(&self) -> (r: &Vec<Link>)
        ensures
            r@ == self.dance_view().ft,
    ;
}

/// A problem with multiplicities that can be searched.
pub trait SolveM: Solve + DanceM {
}

} // verus!
