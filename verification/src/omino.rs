//! Polyominoes on a board: normalized pieces, their symmetric images and
//! the placements of a piece inside a board as options of an exact cover
//! problem, and the grid that shows a solution.

use vstd::prelude::*;
use vstd::relations::{sorted_by, total_ordering};
use vstd::seq_lib::lemma_sorted_unique;

use crate::{Count, Data};

verus! {

broadcast use vstd::seq_lib::group_to_multiset_ensures;

/// A cell of the plane: column, then row.
pub type Cell = (Count, Count);

/// A board is an omino: the cells that the pieces must cover.
pub type Shape = Omino;

/// `a` comes before `b` (or is `b`) in an omino: by row, then by column.
pub open spec fn cell_le(a: Cell, b: Cell) -> bool {
    a.1 < b.1 || (a.1 == b.1 && a.0 <= b.0)
}

/// The order of the cells of an omino.
pub open spec fn cell_leq() -> spec_fn(Cell, Cell) -> bool {
    |a: Cell, b: Cell| cell_le(a, b)
}

/// The cells sorted by row, then by column.
pub open spec fn sorted_cells(s: Seq<Cell>) -> Seq<Cell> {
    s.sort_by(cell_leq())
}

/// The column (`y` false) or the row (`y` true) of a cell.
pub open spec fn coord(c: Cell, y: bool) -> Count {
    if y {
        c.1
    } else {
        c.0
    }
}

/// The least column (or row) of a non-empty list of cells.
pub open spec fn lo(s: Seq<Cell>, y: bool) -> Count
    decreases s.len(),
{
    if s.len() <= 1 {
        coord(s[0], y)
    } else {
        let m = lo(s.drop_last(), y);
        if coord(s.last(), y) < m {
            coord(s.last(), y)
        } else {
            m
        }
    }
}

/// The greatest column (or row) of a non-empty list of cells.
pub open spec fn hi(s: Seq<Cell>, y: bool) -> Count
    decreases s.len(),
{
    if s.len() <= 1 {
        coord(s[0], y)
    } else {
        let m = hi(s.drop_last(), y);
        if coord(s.last(), y) > m {
            coord(s.last(), y)
        } else {
            m
        }
    }
}

/// The cells moved by `-dx` columns and `-dy` rows.
pub open spec fn shift(s: Seq<Cell>, dx: Count, dy: Count) -> Seq<Cell> {
    s.map_values(|c: Cell| ((c.0 - dx) as Count, (c.1 - dy) as Count))
}

/// An omino as values: its cells in order and its bounding box.
pub struct OminoV {
    pub c: Seq<Cell>,
    pub xmin: Count,
    pub xmax: Count,
    pub ymin: Count,
    pub ymax: Count,
}

/// The omino made of the cells `s` where they are.
pub open spec fn raw_view(s: Seq<Cell>) -> OminoV {
    OminoV { c: sorted_cells(s), xmin: lo(s, false), xmax: hi(s, false), ymin: lo(s, true), ymax: hi(s, true) }
}

/// The omino made of the cells `s`, moved so that its bounding box starts
/// at column 0 and row 0.
pub open spec fn normal_view(s: Seq<Cell>) -> OminoV {
    OminoV {
        c: sorted_cells(shift(s, lo(s, false), lo(s, true))),
        xmin: 0,
        xmax: (hi(s, false) - lo(s, false)) as Count,
        ymin: 0,
        ymax: (hi(s, true) - lo(s, true)) as Count,
    }
}

impl OminoV {
    /// At least one cell, each inside the bounding box.
    pub open spec fn wf(self) -> bool {
        &&& self.c.len() > 0
        &&& forall|i: int|
            0 <= i < self.c.len() ==> self.xmin <= (#[trigger] self.c[i]).0 <= self.xmax
                && self.ymin <= self.c[i].1 <= self.ymax
    }
}

/// A bounding box: least column, least row, greatest column, greatest row.
#[derive(Debug, Clone, Copy, PartialEq, Eq)]
pub struct Bounds(pub Count, pub Count, pub Count, pub Count);

impl Bounds {
    /// Whether `other` lies inside this box.
    pub fn contains(&self, other: &Bounds) -> (r: bool)
        ensures
            r == (self.0 <= other.0 && self.1 <= other.1 && self.2 >= other.2 && self.3
                >= other.3),
    {
        self.0 <= other.0 && self.1 <= other.1 && self.2 >= other.2 && self.3 >= other.3
    }
}

/// A set of cells with its bounding box; the cells are kept sorted by row,
/// then by column.
pub struct Omino {
    c: Vec<Cell>,
    xmin: Count,
    xmax: Count,
    ymin: Count,
    ymax: Count,
}

impl View for Omino {
    type V = OminoV;

    closed spec fn view(&self) -> OminoV {
        OminoV { c: self.c@, xmin: self.xmin, xmax: self.xmax, ymin: self.ymin, ymax: self.ymax }
    }
}

/// The order of cells is a total order.
pub proof fn lemma_cell_order()
    ensures
        total_ordering(cell_leq()),
{
    assert forall|a: Cell, b: Cell| #[trigger] cell_leq()(a, b) && #[trigger] cell_leq()(b, a)
        implies a == b by {
        assert(a.0 == b.0 && a.1 == b.1);
    }
}

/// The sorted cells are the same cells, in order.
pub proof fn lemma_sorted_cells(s: Seq<Cell>)
    ensures
        sorted_by(sorted_cells(s), cell_leq()),
        sorted_cells(s).to_multiset() == s.to_multiset(),
        sorted_cells(s).len() == s.len(),
        forall|i: int|
            0 <= i < s.len() ==> #[trigger] s.contains(sorted_cells(s)[i]),
{
    lemma_cell_order();
    s.lemma_sort_by_ensures(cell_leq());
    let t = sorted_cells(s);
    assert(t.to_multiset().len() == t.len());
    assert(s.to_multiset().len() == s.len());
    assert forall|i: int| 0 <= i < s.len() implies #[trigger] s.contains(t[i]) by {
        assert(t.contains(t[i]));
        assert(t.to_multiset().contains(t[i]));
    }
}

/// Every cell lies between the least and the greatest coordinate.
pub proof fn lemma_lo_hi(s: Seq<Cell>, y: bool)
    requires
        s.len() > 0,
    ensures
        forall|i: int|
            0 <= i < s.len() ==> lo(s, y) <= #[trigger] coord(s[i], y) <= hi(s, y),
        exists|i: int| 0 <= i < s.len() && coord(s[i], y) == lo(s, y),
        exists|i: int| 0 <= i < s.len() && coord(s[i], y) == hi(s, y),
    decreases s.len(),
{
    if s.len() > 1 {
        let t = s.drop_last();
        lemma_lo_hi(t, y);
        assert forall|i: int| 0 <= i < s.len() implies lo(s, y) <= #[trigger] coord(s[i], y)
            <= hi(s, y) by {
            if i < t.len() {
                assert(s[i] == t[i]);
            }
        }
        let a = choose|i: int| 0 <= i < t.len() && coord(t[i], y) == lo(t, y);
        let b = choose|i: int| 0 <= i < t.len() && coord(t[i], y) == hi(t, y);
        assert(s[a] == t[a]);
        assert(s[b] == t[b]);
        assert(coord(s[s.len() - 1], y) == coord(s.last(), y));
    } else {
        assert(coord(s[0], y) == lo(s, y));
    }
}

/// Insertion into a sorted list at a place where it stays sorted.
proof fn lemma_insert_sorted(r: Seq<Cell>, k: int, v: Cell)
    requires
        sorted_by(r, cell_leq()),
        0 <= k <= r.len(),
        k > 0 ==> cell_le(r[k - 1], v),
        forall|j: int| k <= j < r.len() ==> !cell_le(#[trigger] r[j], v),
    ensures
        sorted_by(r.insert(k, v), cell_leq()),
{
    let s = r.insert(k, v);
    assert forall|i: int, j: int| 0 <= i < j < s.len() implies #[trigger] cell_leq()(s[i], s[j]) by {
        if j < k {
            assert(s[i] == r[i] && s[j] == r[j]);
            assert(cell_leq()(r[i], r[j]));
        } else if j == k {
            assert(s[i] == r[i]);
            if i < k - 1 {
                assert(cell_leq()(r[i], r[k - 1]));
            }
        } else if i < k {
            assert(s[i] == r[i] && s[j] == r[j - 1]);
            if i < k - 1 {
                assert(cell_leq()(r[i], r[k - 1]));
            }
            assert(!cell_le(r[j - 1], v));
        } else if i == k {
            assert(s[j] == r[j - 1]);
            assert(!cell_le(r[j - 1], v));
        } else {
            assert(s[i] == r[i - 1] && s[j] == r[j - 1]);
            assert(cell_leq()(r[i - 1], r[j - 1]));
        }
    }
}

/// The cells of `c` sorted by row, then by column.
fn sort_cells(c: &Vec<Cell>) -> (r: Vec<Cell>)
    ensures
        r@ == sorted_cells(c@),
{
    let mut r: Vec<Cell> = Vec::new();
    let mut i: usize = 0;
    while i < c.len()
        invariant
            i <= c.len(),
            sorted_by(r@, cell_leq()),
            r@.to_multiset() == c@.take(i as int).to_multiset(),
        decreases c.len() - i,
    {
        let v = c[i];
        let mut k = r.len();
        while k > 0 && !(r[k - 1].1 < v.1 || (r[k - 1].1 == v.1 && r[k - 1].0 <= v.0))
            invariant
                k <= r.len(),
                forall|j: int| k <= j < r.len() ==> !cell_le(#[trigger] r@[j], v),
            decreases k,
        {
            k = k - 1;
        }
        proof {
            lemma_insert_sorted(r@, k as int, v);
            assert(c@.take(i + 1) == c@.take(i as int).push(v));
        }
        r.insert(k, v);
        i = i + 1;
    }
    proof {
        assert(c@.take(c.len() as int) == c@);
        lemma_sorted_cells(c@);
        lemma_cell_order();
        lemma_sorted_unique(r@, sorted_cells(c@), cell_leq());
    }
    r
}

/// The least and greatest column and row of non-empty cells.
fn cell_bounds(c: &[Cell]) -> (r: (Count, Count, Count, Count))
    requires
        c@.len() > 0,
    ensures
        r == (lo(c@, false), hi(c@, false), lo(c@, true), hi(c@, true)),
{
    let mut xmin = c[0].0;
    let mut xmax = c[0].0;
    let mut ymin = c[0].1;
    let mut ymax = c[0].1;
    let mut i: usize = 1;
    assert(c@.take(1).len() == 1);
    while i < c.len()
        invariant
            1 <= i <= c.len(),
            xmin == lo(c@.take(i as int), false),
            xmax == hi(c@.take(i as int), false),
            ymin == lo(c@.take(i as int), true),
            ymax == hi(c@.take(i as int), true),
        decreases c.len() - i,
    {
        let (x, y) = c[i];
        let ghost t = c@.take(i + 1);
        assert(t.drop_last() == c@.take(i as int));
        assert(t.last() == c@[i as int]);
        if x < xmin {
            xmin = x;
        }
        if x > xmax {
            xmax = x;
        }
        if y < ymin {
            ymin = y;
        }
        if y > ymax {
            ymax = y;
        }
        i = i + 1;
    }
    assert(c@.take(c@.len() as int) == c@);
    (xmin, xmax, ymin, ymax)
}

/// A copy of the cells of a slice.
fn copy_cells(c: &[Cell]) -> (r: Vec<Cell>)
    ensures
        r@ == c@,
{
    let mut r: Vec<Cell> = Vec::new();
    let mut i: usize = 0;
    while i < c.len()
        invariant
            i <= c.len(),
            r@ == c@.take(i as int),
        decreases c.len() - i,
    {
        r.push(c[i]);
        i = i + 1;
        assert(r@ == c@.take(i as int));
    }
    assert(c@.take(c@.len() as int) == c@);
    r
}

impl Omino {
    /// The omino of the cells `c`, moved to start at column 0 and row 0.
    pub fn new(c: &[Cell]) -> (r: Omino)
        requires
            c@.len() > 0,
        ensures
            r@ == normal_view(c@),
            r@.wf(),
    {
        let (xmin, xmax, ymin, ymax) = cell_bounds(c);
        proof {
            lemma_lo_hi(c@, false);
            lemma_lo_hi(c@, true);
        }
        let mut moved: Vec<Cell> = Vec::new();
        let mut i: usize = 0;
        while i < c.len()
            invariant
                i <= c.len(),
                xmin == lo(c@, false),
                ymin == lo(c@, true),
                forall|j: int| 0 <= j < c@.len() ==> xmin <= #[trigger] coord(c@[j], false),
                forall|j: int| 0 <= j < c@.len() ==> ymin <= #[trigger] coord(c@[j], true),
                moved@ == shift(c@, xmin, ymin).take(i as int),
            decreases c.len() - i,
        {
            let (x, y) = c[i];
            assert(coord(c@[i as int], false) == x && coord(c@[i as int], true) == y);
            moved.push((x - xmin, y - ymin));
            i = i + 1;
            assert(moved@ == shift(c@, xmin, ymin).take(i as int));
        }
        assert(shift(c@, xmin, ymin).take(c@.len() as int) == shift(c@, xmin, ymin));
        let sorted = sort_cells(&moved);
        let r = Omino { c: sorted, xmin: 0, xmax: xmax - xmin, ymin: 0, ymax: ymax - ymin };
        proof {
            let s = shift(c@, xmin, ymin);
            lemma_sorted_cells(s);
            assert forall|i: int| 0 <= i < r.c@.len() implies 0 <= (#[trigger] r.c@[i]).0
                <= r.xmax && 0 <= r.c@[i].1 <= r.ymax by {
                assert(s.contains(r.c@[i]));
                let j = choose|j: int| 0 <= j < s.len() && s[j] == r.c@[i];
                assert(lo(c@, false) <= coord(c@[j], false) <= hi(c@, false));
                assert(lo(c@, true) <= coord(c@[j], true) <= hi(c@, true));
            }
        }
        r
    }

    /// The omino of the cells `c` where they are.
    fn raw(c: &[Cell]) -> (r: Omino)
        requires
            c@.len() > 0,
        ensures
            r@ == raw_view(c@),
            r@.wf(),
    {
        let (xmin, xmax, ymin, ymax) = cell_bounds(c);
        let v = copy_cells(c);
        let sorted = sort_cells(&v);
        let r = Omino { c: sorted, xmin, xmax, ymin, ymax };
        proof {
            lemma_lo_hi(c@, false);
            lemma_lo_hi(c@, true);
            lemma_sorted_cells(c@);
            assert forall|i: int| 0 <= i < r.c@.len() implies xmin <= (#[trigger] r.c@[i]).0
                <= xmax && ymin <= r.c@[i].1 <= ymax by {
                assert(c@.contains(r.c@[i]));
                let j = choose|j: int| 0 <= j < c@.len() && c@[j] == r.c@[i];
                assert(lo(c@, false) <= coord(c@[j], false) <= hi(c@, false));
                assert(lo(c@, true) <= coord(c@[j], true) <= hi(c@, true));
            }
        }
        r
    }

    /// The bounding box.
    pub fn bounds(&self) -> (r: Bounds)
        ensures
            r == Bounds(self@.xmin, self@.ymin, self@.xmax, self@.ymax),
    {
        Bounds(self.xmin, self.ymin, self.xmax, self.ymax)
    }

    /// Cell number `i`, in the order of rows, then columns.
    pub fn cell_at(&self, i: Count) -> (r: (Count, Count))
        requires
            i < self@.c.len(),
        ensures
            r == self@.c[i as int],
    {
        (self.c[i].0, self.c[i].1)
    }

    /// The number of cells.
    pub fn len(&self) -> (r: Count)
        ensures
            r == self@.c.len(),
    {
        self.c.len()
    }

    /// Whether the two ominoes have the same cells and bounding box.
    pub fn same(&self, other: &Omino) -> (r: bool)
        ensures
            r == (self@ == other@),
    {
        if self.xmin != other.xmin || self.xmax != other.xmax || self.ymin != other.ymin
            || self.ymax != other.ymax || self.c.len() != other.c.len() {
            return false;
        }
        let mut i: usize = 0;
        while i < self.c.len()
            invariant
                i <= self.c.len(),
                self.c.len() == other.c.len(),
                forall|j: int| 0 <= j < i ==> self.c@[j] == other.c@[j],
            decreases self.c.len() - i,
        {
            if self.c[i].0 != other.c[i].0 || self.c[i].1 != other.c[i].1 {
                return false;
            }
            i = i + 1;
        }
        assert(self.c@ == other.c@);
        true
    }
}


/// Cell `c` of a piece with bounding box up to column `xm` and row `ym`
/// under symmetry `b`: the identity, the three rotations by a quarter
/// turn, and the same after a flip about the diagonal.
pub open spec fn xform(b: int, c: Cell, xm: Count, ym: Count) -> Cell {
    let (x, y) = c;
    if b == 0 {
        (x, y)
    } else if b == 1 {
        ((ym - y) as Count, x)
    } else if b == 2 {
        ((xm - x) as Count, (ym - y) as Count)
    } else if b == 3 {
        (y, (xm - x) as Count)
    } else if b == 4 {
        (y, x)
    } else if b == 5 {
        (x, (ym - y) as Count)
    } else if b == 6 {
        ((ym - y) as Count, (xm - x) as Count)
    } else {
        ((xm - x) as Count, y)
    }
}

/// The cells of a piece under symmetry `b`.
pub open spec fn xformed(o: OminoV, b: int) -> Seq<Cell> {
    o.c.map_values(|c: Cell| xform(b, c, o.xmax, o.ymax))
}

/// Whether bit `b` of `t` is set.
pub open spec fn bit_set(t: u8, b: u8) -> bool {
    (t >> b) & 1u8 == 1u8
}

/// The images of `o` under the symmetries `0..n` whose bits are set in `t`,
/// each normalized, without repeats, in the order first met.
pub open spec fn transforms(o: OminoV, t: u8, n: int) -> Seq<OminoV>
    decreases n,
{
    if n <= 0 {
        Seq::empty()
    } else {
        let prev = transforms(o, t, n - 1);
        let v = normal_view(xformed(o, n - 1));
        if bit_set(t, (n - 1) as u8) && !prev.contains(v) {
            prev.push(v)
        } else {
            prev
        }
    }
}

/// The views of a list of ominoes.
pub open spec fn views(v: Seq<Omino>) -> Seq<OminoV> {
    v.map_values(|o: Omino| o@)
}

impl Omino {
    /// The cells of this omino under symmetry `b`.
    fn xform_cells(&self, b: u8) -> (r: Vec<Cell>)
        requires
            self@.wf(),
            b < 8,
        ensures
            r@ == xformed(self@, b as int),
    {
        let mut r: Vec<Cell> = Vec::new();
        let mut i: usize = 0;
        let xm = self.xmax;
        let ym = self.ymax;
        while i < self.c.len()
            invariant
                i <= self.c.len(),
                self@.wf(),
                b < 8,
                xm == self@.xmax,
                ym == self@.ymax,
                r@ == xformed(self@, b as int).take(i as int),
            decreases self.c.len() - i,
        {
            let (x, y) = self.c[i];
            assert(self@.c[i as int] == self.c@[i as int]);
            let c = if b == 0 {
                (x, y)
            } else if b == 1 {
                (ym - y, x)
            } else if b == 2 {
                (xm - x, ym - y)
            } else if b == 3 {
                (y, xm - x)
            } else if b == 4 {
                (y, x)
            } else if b == 5 {
                (x, ym - y)
            } else if b == 6 {
                (ym - y, xm - x)
            } else {
                (xm - x, y)
            };
            r.push(c);
            i = i + 1;
            assert(r@ == xformed(self@, b as int).take(i as int));
        }
        assert(xformed(self@, b as int).take(self.c@.len() as int) == xformed(self@, b as int));
        r
    }

    /// The distinct images of this omino under the symmetries whose bits
    /// are set in `t` (bit 0 the identity, bits 1 to 3 the rotations by one
    /// to three quarter turns, bit 4 the flip about the diagonal, bits 5 to
    /// 7 the flip followed by a rotation), each moved to start at column 0
    /// and row 0.
    pub fn transform(&self, t: u8) -> (r: Vec<Omino>)
        requires
            self@.wf(),
        ensures
            views(r@) == transforms(self@, t, 8),
            forall|k: int| 0 <= k < r@.len() ==> (#[trigger] r@[k])@.wf(),
    {
        let mut ps: Vec<Omino> = Vec::new();
        let mut b: u8 = 0;
        while b < 8
            invariant
                b <= 8,
                self@.wf(),
                views(ps@) == transforms(self@, t, b as int),
                forall|k: int| 0 <= k < ps@.len() ==> (#[trigger] ps@[k])@.wf(),
            decreases 8 - b,
        {
            if (t >> b) & 1 == 1 {
                let cells = self.xform_cells(b);
                let o = Omino::new(&cells);
                let mut seen = false;
                let mut k: usize = 0;
                while k < ps.len()
                    invariant
                        k <= ps.len(),
                        seen == exists|j: int| 0 <= j < k && (#[trigger] ps@[j])@ == o@,
                    decreases ps.len() - k,
                {
                    if ps[k].same(&o) {
                        seen = true;
                    }
                    k = k + 1;
                }
                proof {
                    let prev = views(ps@);
                    if seen {
                        let j = choose|j: int| 0 <= j < ps@.len() && (#[trigger] ps@[j])@ == o@;
                        assert(prev[j] == o@);
                        assert(prev.contains(o@));
                    } else {
                        assert forall|j: int| 0 <= j < prev.len() implies prev[j] != o@ by {
                            assert(prev[j] == ps@[j]@);
                        }
                        assert(!prev.contains(o@));
                    }
                }
                if !seen {
                    ps.push(o);
                    assert(views(ps@) == views(ps@.drop_last()).push(o@));
                }
            }
            b = b + 1;
        }
        ps
    }
}

/// The data of an option entry that names an item.
pub trait OptData: Sized {
    /// The entry that names item `i`.
    spec fn of_item(i: Count) -> Self;

    /// The item that the entry names.
    spec fn item_of(self) -> Count;

    /// The entry that names item `i`.
    fn new_item(i: Count) -> (r: Self)
        ensures
            r == Self::of_item(i),
            r.item_of() == i,
    ;

    /// The item that the entry names.
    fn get_item(&self) -> (r: Count)
        ensures
            r == self.item_of(),
    ;
}

impl OptData for Count {
    open spec fn of_item(i: Count) -> Count {
        i
    }

    open spec fn item_of(self) -> Count {
        self
    }

    fn new_item(i: Count) -> (r: Count) {
        i
    }

    fn get_item(&self) -> (r: Count) {
        *self
    }
}

impl OptData for (Count, Data) {
    open spec fn of_item(i: Count) -> (Count, Data) {
        (i, 0)
    }

    open spec fn item_of(self) -> Count {
        self.0
    }

    fn new_item(i: Count) -> (r: (Count, Data)) {
        (i, 0)
    }

    fn get_item(&self) -> (r: Count) {
        self.0
    }
}

/// How the cells of a board and the pieces become items: cell `k` is item
/// `k`, piece `p` is item `cells + p`.
pub trait SpecInfo {
    /// The data of an option entry.
    type OData: OptData;

    /// The number of pieces.
    spec fn pieces(&self) -> Count;

    /// The number of cells.
    spec fn cells(&self) -> Count;

    /// The number of pieces.
    fn piece_count(&self) -> (r: Count)
        ensures
            r == self.pieces(),
    ;

    /// The number of cells.
    fn cell_count(&self) -> (r: Count)
        ensures
            r == self.cells(),
    ;

    /// The entry of cell `i`.
    fn cell_to_item(&self, i: Count) -> (r: Self::OData)
        ensures
            r == Self::OData::of_item(i),
    {
        Self::OData::new_item(i)
    }

    /// The cell of an entry.
    fn item_to_cell(&self, d: &Self::OData) -> (r: Count)
        ensures
            r == d.item_of(),
    {
        d.get_item()
    }

    /// The entry of piece `i`.
    fn piece_to_item(&self, i: Count) -> (r: Self::OData)
        requires
            i + self.cells() <= usize::MAX,
        ensures
            r == Self::OData::of_item((i + self.cells()) as Count),
    {
        Self::OData::new_item(i + self.cell_count())
    }

    /// The piece of an entry of a piece.
    fn item_to_piece(&self, d: &Self::OData) -> (r: Count)
        requires
            d.item_of() >= self.cells(),
        ensures
            r == d.item_of() - self.cells(),
    {
        d.get_item() - self.cell_count()
    }

    /// The items of the cells.
    fn cell_range(&self) -> (r: std::ops::Range<Count>)
        ensures
            r.start == 0,
            r.end == self.cells(),
    {
        0..self.cell_count()
    }

    /// The items of the pieces.
    fn piece_range(&self) -> (r: std::ops::Range<Count>)
        requires
            self.cells() + self.pieces() <= usize::MAX,
        ensures
            r.start == self.cells(),
            r.end == self.cells() + self.pieces(),
    {
        self.cell_count()..(self.cell_count() + self.piece_count())
    }
}

/// A board of `cells` cells and `pieces` pieces whose options name items
/// by number alone.
pub struct Board {
    pub pieces: Count,
    pub cells: Count,
}

impl SpecInfo for Board {
    type OData = Count;

    open spec fn pieces(&self) -> Count {
        self.pieces
    }

    open spec fn cells(&self) -> Count {
        self.cells
    }

    fn piece_count(&self) -> (r: Count) {
        self.pieces
    }

    fn cell_count(&self) -> (r: Count) {
        self.cells
    }
}


/// The first place of cell `c` in `s`, or -1 when it is not there.
pub open spec fn cell_pos(s: Seq<Cell>, c: Cell) -> int
    decreases s.len(),
{
    if s.len() == 0 {
        -1
    } else if s[0] == c {
        0
    } else {
        let k = cell_pos(s.drop_first(), c);
        if k < 0 {
            -1
        } else {
            k + 1
        }
    }
}

/// What the first place of a cell means.
pub proof fn lemma_cell_pos(s: Seq<Cell>, c: Cell)
    ensures
        -1 <= cell_pos(s, c) < s.len(),
        cell_pos(s, c) >= 0 ==> s[cell_pos(s, c)] == c,
        forall|j: int| 0 <= j < s.len() && (cell_pos(s, c) < 0 || j < cell_pos(s, c)) ==> s[j] != c,
    decreases s.len(),
{
    if s.len() > 0 && s[0] != c {
        let t = s.drop_first();
        lemma_cell_pos(t, c);
        assert forall|j: int| 0 <= j < s.len() && (cell_pos(s, c) < 0 || j < cell_pos(s, c)) implies s[j] != c by {
            if j > 0 {
                assert(s[j] == t[j - 1]);
            }
        }
    }
}

/// The first place of cell `c` in `s`.
fn find_cell(s: &Vec<Cell>, c: Cell) -> (r: Option<Count>)
    ensures
        match r {
            Some(k) => k == cell_pos(s@, c),
            None => cell_pos(s@, c) < 0,
        },
{
    proof {
        lemma_cell_pos(s@, c);
    }
    let mut i: usize = 0;
    while i < s.len()
        invariant
            i <= s.len(),
            forall|j: int| 0 <= j < i ==> s@[j] != c,
        decreases s.len() - i,
    {
        if s[i].0 == c.0 && s[i].1 == c.1 {
            proof {
                let k = cell_pos(s@, c);
                assert(s@[i as int] == c);
                lemma_cell_pos(s@, c);
                if k >= 0 && k < i {
                    assert(s@[k] != c);
                }
                if k < 0 || k > i {
                    assert(s@[i as int] != c);
                }
                assert(k == i);
            }
            return Some(i);
        }
        i = i + 1;
    }
    None
}

/// The cells moved by `xd` columns and `yd` rows.
pub open spec fn moved(s: Seq<Cell>, xd: int, yd: int) -> Seq<Cell> {
    s.map_values(|c: Cell| ((c.0 + xd) as Count, (c.1 + yd) as Count))
}

/// Every cell of `m` is a cell of the board.
pub open spec fn fits(board: Seq<Cell>, m: Seq<Cell>) -> bool {
    forall|k: int| 0 <= k < m.len() ==> cell_pos(board, #[trigger] m[k]) >= 0
}

/// The items of the option that puts a piece (item `piece`) on the cells
/// `m` of the board: the piece, then the place of each cell in the board.
pub open spec fn placement(board: Seq<Cell>, m: Seq<Cell>, piece: int) -> Seq<Count> {
    seq![piece as Count] + m.map_values(|c: Cell| cell_pos(board, c) as Count)
}

/// The option entries that name the items.
pub open spec fn entries<D: OptData>(items: Seq<Count>) -> Seq<D> {
    items.map_values(|i: Count| D::of_item(i))
}

/// The placement of piece `o` moved by `xd` columns and `yd` rows, when it
/// fits the board: its items and its cells.
pub open spec fn cand_at(o: OminoV, board: Seq<Cell>, piece: int, xd: int, yd: int) -> Seq<
    (Seq<Count>, Seq<Cell>),
> {
    let m = moved(o.c, xd, yd);
    if fits(board, m) {
        seq![(placement(board, m, piece), m)]
    } else {
        Seq::empty()
    }
}

/// The placements that fit, moving by `yd` rows and by `x0..x_end` columns.
pub open spec fn cands_row(o: OminoV, board: Seq<Cell>, piece: int, yd: int, x0: int, x_end: int) -> Seq<
    (Seq<Count>, Seq<Cell>),
>
    decreases x_end - x0,
{
    if x_end <= x0 {
        Seq::empty()
    } else {
        cands_row(o, board, piece, yd, x0, x_end - 1) + cand_at(o, board, piece, x_end - 1, yd)
    }
}

/// The placements that fit, moving by `y0..y_end` rows, and in each row by
/// `x0..x_end` columns.
pub open spec fn cands_rows(
    o: OminoV,
    board: Seq<Cell>,
    piece: int,
    x0: int,
    x_end: int,
    y0: int,
    y_end: int,
) -> Seq<(Seq<Count>, Seq<Cell>)>
    decreases y_end - y0,
{
    if y_end <= y0 {
        Seq::empty()
    } else {
        cands_rows(o, board, piece, x0, x_end, y0, y_end - 1) + cands_row(
            o,
            board,
            piece,
            y_end - 1,
            x0,
            x_end,
        )
    }
}

/// The placements of piece `o` (item `piece`) inside the bounding box of
/// the board that cover only cells of the board, row by row, each row from
/// left to right.
pub open spec fn candidates(o: OminoV, board: OminoV, piece: int) -> Seq<(Seq<Count>, Seq<Cell>)> {
    if o.ymax > board.ymax || o.xmax > board.xmax {
        Seq::empty()
    } else {
        cands_rows(
            o,
            board.c,
            piece,
            board.xmin as int,
            board.xmax - o.xmax + 1,
            board.ymin as int,
            board.ymax - o.ymax + 1,
        )
    }
}

/// The outputs that are not empty, in order.
pub open spec fn nonempty<D>(outs: Seq<Vec<D>>) -> Seq<Vec<D>>
    decreases outs.len(),
{
    if outs.len() == 0 {
        Seq::empty()
    } else if outs.last()@.len() > 0 {
        nonempty(outs.drop_last()).push(outs.last())
    } else {
        nonempty(outs.drop_last())
    }
}

/// `out` is what `ext` may give for a placement: called with the option's
/// entries and the piece where it lies.
pub open spec fn ext_gives<D: OptData, F: Fn(Vec<D>, &Omino) -> Vec<D>>(
    ext: F,
    cand: (Seq<Count>, Seq<Cell>),
    out: Vec<D>,
) -> bool {
    exists|v: Vec<D>, t: Omino|
        v@ == entries::<D>(cand.0) && t@ == raw_view(cand.1) && #[trigger] call_ensures(
            ext,
            (v, &t),
            out,
        )
}

/// `outs` are what `ext` may give for each of the placements `cands`.
pub open spec fn ext_outputs<D: OptData, F: Fn(Vec<D>, &Omino) -> Vec<D>>(
    ext: F,
    cands: Seq<(Seq<Count>, Seq<Cell>)>,
    outs: Seq<Vec<D>>,
) -> bool {
    &&& outs.len() == cands.len()
    &&& forall|k: int| 0 <= k < outs.len() ==> ext_gives(ext, cands[k], #[trigger] outs[k])
}

/// `f` may judge `b` of the piece that lies on the cells `m`.
pub open spec fn judged<G: Fn(&Omino) -> bool>(f: G, m: Seq<Cell>, b: bool) -> bool {
    exists|t: Omino| t@ == raw_view(m) && #[trigger] call_ensures(f, (&t,), b)
}

/// `f` may judge `keep` of the pieces placed by `cands`.
pub open spec fn judged_all<G: Fn(&Omino) -> bool>(
    f: G,
    cands: Seq<(Seq<Count>, Seq<Cell>)>,
    keep: Seq<bool>,
) -> bool {
    &&& keep.len() == cands.len()
    &&& forall|k: int| 0 <= k < keep.len() ==> judged(f, cands[k].1, #[trigger] keep[k])
}

/// The entries of the placements whose `keep` is set, in order.
pub open spec fn selected<D: OptData>(cands: Seq<(Seq<Count>, Seq<Cell>)>, keep: Seq<bool>) -> Seq<Seq<D>>
    decreases cands.len(),
{
    if cands.len() == 0 || keep.len() != cands.len() {
        Seq::empty()
    } else if keep.last() {
        selected::<D>(cands.drop_last(), keep.drop_last()).push(entries::<D>(cands.last().0))
    } else {
        selected::<D>(cands.drop_last(), keep.drop_last())
    }
}

/// The views of a list of vectors.
pub open spec fn vec_views<D>(v: Seq<Vec<D>>) -> Seq<Seq<D>> {
    v.map_values(|x: Vec<D>| x@)
}

/// Outputs that are either the entries of their placement or empty keep
/// the placements that gave entries.
proof fn lemma_selected<D: OptData>(cands: Seq<(Seq<Count>, Seq<Cell>)>, outs: Seq<Vec<D>>, keep: Seq<bool>)
    requires
        outs.len() == cands.len(),
        keep.len() == cands.len(),
        forall|k: int|
            0 <= k < outs.len() ==> (#[trigger] keep[k] <==> outs[k]@.len() > 0),
        forall|k: int|
            0 <= k < outs.len() ==> keep[k] ==> (#[trigger] outs[k])@ == entries::<D>(cands[k].0),
    ensures
        vec_views(nonempty(outs)) == selected::<D>(cands, keep),
    decreases cands.len(),
{
    if cands.len() > 0 {
        let n = cands.len() - 1;
        assert(keep[n] <==> outs[n]@.len() > 0);
        lemma_selected::<D>(cands.drop_last(), outs.drop_last(), keep.drop_last());
        if keep.last() {
            assert(outs[n]@ == entries::<D>(cands[n].0));
            assert(vec_views(nonempty(outs)) =~= vec_views(nonempty(outs.drop_last())).push(
                outs.last()@,
            ));
        }
    }
}

/// More columns give at least as many placements.
proof fn lemma_row_len_mono(o: OminoV, board: Seq<Cell>, piece: int, yd: int, x0: int, a: int, c: int)
    requires
        a <= c,
    ensures
        cands_row(o, board, piece, yd, x0, a).len() <= cands_row(o, board, piece, yd, x0, c).len(),
    decreases c - a,
{
    if a < c {
        lemma_row_len_mono(o, board, piece, yd, x0, a, c - 1);
    }
}

/// More rows give at least as many placements.
proof fn lemma_rows_len_mono(o: OminoV, board: Seq<Cell>, piece: int, x0: int, x_end: int, y0: int, a: int, c: int)
    requires
        a <= c,
    ensures
        cands_rows(o, board, piece, x0, x_end, y0, a).len() <= cands_rows(
            o,
            board,
            piece,
            x0,
            x_end,
            y0,
            c,
        ).len(),
    decreases c - a,
{
    if a < c {
        lemma_rows_len_mono(o, board, piece, x0, x_end, y0, a, c - 1);
    }
}

/// Each placement names at least the piece.
proof fn lemma_cand_row_items(o: OminoV, board: Seq<Cell>, piece: int, yd: int, x0: int, x_end: int)
    ensures
        forall|k: int|
            0 <= k < cands_row(o, board, piece, yd, x0, x_end).len() ==> (#[trigger] cands_row(
                o,
                board,
                piece,
                yd,
                x0,
                x_end,
            )[k]).0.len() > 0,
    decreases x_end - x0,
{
    if x_end > x0 {
        lemma_cand_row_items(o, board, piece, yd, x0, x_end - 1);
        let a = cands_row(o, board, piece, yd, x0, x_end - 1);
        let b = cand_at(o, board, piece, x_end - 1, yd);
        assert forall|k: int| 0 <= k < (a + b).len() implies (#[trigger] (a + b)[k]).0.len() > 0 by {
            if k >= a.len() {
                assert((a + b)[k] == b[k - a.len()]);
            } else {
                assert((a + b)[k] == a[k]);
            }
        }
    }
}

/// Each placement names at least the piece.
proof fn lemma_cand_rows_items(o: OminoV, board: Seq<Cell>, piece: int, x0: int, x_end: int, y0: int, y_end: int)
    ensures
        forall|k: int|
            0 <= k < cands_rows(o, board, piece, x0, x_end, y0, y_end).len() ==> (#[trigger] cands_rows(
                o,
                board,
                piece,
                x0,
                x_end,
                y0,
                y_end,
            )[k]).0.len() > 0,
    decreases y_end - y0,
{
    if y_end > y0 {
        lemma_cand_rows_items(o, board, piece, x0, x_end, y0, y_end - 1);
        lemma_cand_row_items(o, board, piece, y_end - 1, x0, x_end);
        let a = cands_rows(o, board, piece, x0, x_end, y0, y_end - 1);
        let b = cands_row(o, board, piece, y_end - 1, x0, x_end);
        assert forall|k: int| 0 <= k < (a + b).len() implies (#[trigger] (a + b)[k]).0.len() > 0 by {
            if k >= a.len() {
                assert((a + b)[k] == b[k - a.len()]);
            } else {
                assert((a + b)[k] == a[k]);
            }
        }
    }
}

/// Each placement names at least the piece.
proof fn lemma_candidate_items(o: OminoV, board: OminoV, piece: int, k: int)
    requires
        0 <= k < candidates(o, board, piece).len(),
    ensures
        candidates(o, board, piece)[k].0.len() > 0,
{
    if !(o.ymax > board.ymax || o.xmax > board.xmax) {
        lemma_cand_rows_items(
            o,
            board.c,
            piece,
            board.xmin as int,
            board.xmax - o.xmax + 1,
            board.ymin as int,
            board.ymax - o.ymax + 1,
        );
    }
}

/// When no output is empty, all are kept.
proof fn lemma_nonempty_all<D>(outs: Seq<Vec<D>>)
    requires
        forall|k: int| 0 <= k < outs.len() ==> (#[trigger] outs[k])@.len() > 0,
    ensures
        nonempty(outs) == outs,
    decreases outs.len(),
{
    if outs.len() > 0 {
        lemma_nonempty_all(outs.drop_last());
        assert(outs.drop_last().push(outs.last()) == outs);
    }
}

impl Omino {
    /// The cells of this omino moved by `xd` columns and `yd` rows.
    fn moved_cells(&self, xd: Count, yd: Count, xlim: Count, ylim: Count) -> (r: Vec<Cell>)
        requires
            self@.wf(),
            self@.xmax + xd <= xlim,
            self@.ymax + yd <= ylim,
        ensures
            r@ == moved(self@.c, xd as int, yd as int),
    {
        let mut r: Vec<Cell> = Vec::new();
        let mut i: usize = 0;
        while i < self.c.len()
            invariant
                i <= self.c.len(),
                self@.wf(),
                self@.xmax + xd <= xlim,
                self@.ymax + yd <= ylim,
                r@ == moved(self@.c, xd as int, yd as int).take(i as int),
            decreases self.c.len() - i,
        {
            assert(self@.c[i as int] == self.c@[i as int]);
            let (x, y) = self.c[i];
            r.push((x + xd, y + yd));
            i = i + 1;
            assert(r@ == moved(self@.c, xd as int, yd as int).take(i as int));
        }
        assert(moved(self@.c, xd as int, yd as int).take(self.c@.len() as int) == moved(
            self@.c,
            xd as int,
            yd as int,
        ));
        r
    }

    /// The option of piece `p` on cells `m`, when all of them are cells of
    /// the board.
    fn place<S: SpecInfo>(p: Count, m: &Vec<Cell>, shape: &Shape, info: &S) -> (r: Option<
        Vec<S::OData>,
    >)
        requires
            fits(shape@.c, m@) ==> p + info.cells() <= usize::MAX,
        ensures
            r is Some <==> fits(shape@.c, m@),
            r is Some ==> r->0@ == entries::<S::OData>(
                placement(shape@.c, m@, p + info.cells()),
            ),
    {
        let ghost piece = p + info.cells();
        let ghost board = shape@.c;
        let mut pos: Vec<Count> = Vec::new();
        let mut k: usize = 0;
        while k < m.len()
            invariant
                k <= m.len(),
                board == shape@.c,
                pos@ == m@.take(k as int).map_values(|c: Cell| cell_pos(board, c) as Count),
                forall|j: int| 0 <= j < k ==> cell_pos(board, #[trigger] m@[j]) >= 0,
            decreases m.len() - k,
        {
            match find_cell(&shape.c, m[k]) {
                Some(q) => {
                    pos.push(q);
                    proof {
                        let t = m@.take(k + 1);
                        assert(t.drop_last() == m@.take(k as int));
                        assert(t.map_values(|c: Cell| cell_pos(board, c) as Count) =~= m@.take(
                            k as int,
                        ).map_values(|c: Cell| cell_pos(board, c) as Count).push(q));
                    }
                    k = k + 1;
                },
                None => {
                    return None;
                },
            }
        }
        assert(m@.take(m@.len() as int) == m@);
        let mut opt: Vec<S::OData> = Vec::new();
        opt.push(info.piece_to_item(p));
        let mut j: usize = 0;
        while j < pos.len()
            invariant
                j <= pos.len(),
                board == shape@.c,
                pos@ == m@.map_values(|c: Cell| cell_pos(board, c) as Count),
                opt@ == entries::<S::OData>(seq![piece as Count] + pos@.take(j as int)),
            decreases pos.len() - j,
        {
            opt.push(info.cell_to_item(pos[j]));
            proof {
                assert(seq![piece as Count] + pos@.take(j + 1) =~= (seq![piece as Count] + pos@.take(
                    j as int,
                )).push(pos@[j as int]));
            }
            j = j + 1;
        }
        assert(pos@.take(pos@.len() as int) == pos@);
        Some(opt)
    }

    /// The options of piece `p` on the board `shape`: for each placement
    /// inside the board's bounding box that covers only cells of the
    /// board, row by row and each row from left to right, the item of the
    /// piece followed by the items of the cells it covers, handed with the
    /// placed piece to `ext`; the outputs of `ext` that are not empty.
    pub fn options<S: SpecInfo, F: Fn(Vec<S::OData>, &Omino) -> Vec<S::OData>>(
        &self,
        p: Count,
        shape: &Shape,
        info: &S,
        ext: F,
    ) -> (r: Vec<Vec<S::OData>>)
        requires
            self@.wf(),
            candidates(self@, shape@, p + info.cells()).len() > 0 ==> p + info.cells()
                <= usize::MAX,
            forall|v: Vec<S::OData>, t: Omino| call_requires(ext, (v, &t)),
        ensures
            exists|outs: Seq<Vec<S::OData>>|
                ext_outputs(ext, candidates(self@, shape@, p + info.cells()), outs) && r@
                    == nonempty(outs),
    {
        let ghost piece = p + info.cells();
        let Bounds(xmin, ymin, xmax, ymax) = shape.bounds();
        let mut os: Vec<Vec<S::OData>> = Vec::new();
        if self.ymax > ymax || self.xmax > xmax {
            assert(nonempty(Seq::<Vec<S::OData>>::empty()) == os@);
            return os;
        }
        let xhi = xmax - self.xmax;
        let yhi = ymax - self.ymax;
        let ghost o = self@;
        let ghost board = shape@.c;
        let ghost mut outs: Seq<Vec<S::OData>> = Seq::empty();
        assert(candidates(self@, shape@, piece) == cands_rows(o, board, piece, xmin as int, xhi + 1, ymin as int, yhi + 1));
        let ghost mut yend: int = ymin as int;
        let mut yd = ymin;
        let mut ygo = ymin <= yhi;
        while ygo
            invariant
                self@.wf(),
                o == self@,
                board == shape@.c,
                piece == p + info.cells(),
                candidates(self@, shape@, piece).len() > 0 ==> piece <= usize::MAX,
                candidates(self@, shape@, piece) == cands_rows(o, board, piece, xmin as int, xhi + 1, ymin as int, yhi + 1),
                forall|v: Vec<S::OData>, t: Omino| call_requires(ext, (v, &t)),
                xmin == shape@.xmin,
                xmax == shape@.xmax,
                ymin == shape@.ymin,
                ymax == shape@.ymax,
                xhi == xmax - self@.xmax,
                yhi == ymax - self@.ymax,
                ygo ==> ymin <= yd <= yhi && yend == yd,
                !ygo ==> yend == yhi + 1 || (yend == ymin && ymin > yhi),
                outs.len() == cands_rows(o, board, piece, xmin as int, xhi + 1, ymin as int, yend).len(),
                forall|k: int|
                    0 <= k < outs.len() ==> ext_gives(
                        ext,
                        cands_rows(o, board, piece, xmin as int, xhi + 1, ymin as int, yend)[k],
                        #[trigger] outs[k],
                    ),
                os@ == nonempty(outs),
            decreases (if ygo {
                yhi - yd + 1
            } else {
                0
            }),
        {
            let ghost before = cands_rows(o, board, piece, xmin as int, xhi + 1, ymin as int, yend);
            let ghost mut xend: int = xmin as int;
            let mut xd = xmin;
            let mut xgo = xmin <= xhi;
            while xgo
                invariant
                    self@.wf(),
                    o == self@,
                    board == shape@.c,
                    piece == p + info.cells(),
                    candidates(self@, shape@, piece).len() > 0 ==> piece <= usize::MAX,
                    candidates(self@, shape@, piece) == cands_rows(o, board, piece, xmin as int, xhi + 1, ymin as int, yhi + 1),
                    forall|v: Vec<S::OData>, t: Omino| call_requires(ext, (v, &t)),
                    xmin == shape@.xmin,
                    xmax == shape@.xmax,
                    xhi == xmax - self@.xmax,
                    yhi == ymax - self@.ymax,
                    ymax == shape@.ymax,
                    ymin <= yd <= yhi,
                    xgo ==> xmin <= xd <= xhi && xend == xd,
                    !xgo ==> xend == xhi + 1 || (xend == xmin && xmin > xhi),
                    before == cands_rows(o, board, piece, xmin as int, xhi + 1, ymin as int, yd as int),
                    outs.len() == (before + cands_row(o, board, piece, yd as int, xmin as int, xend)).len(),
                    forall|k: int|
                        0 <= k < outs.len() ==> ext_gives(
                            ext,
                            (before + cands_row(o, board, piece, yd as int, xmin as int, xend))[k],
                            #[trigger] outs[k],
                        ),
                    os@ == nonempty(outs),
                decreases (if xgo {
                    xhi - xd + 1
                } else {
                    0
                }),
            {
                let ghost done = before + cands_row(o, board, piece, yd as int, xmin as int, xend);
                let ctp = self.moved_cells(xd, yd, xmax, ymax);
                proof {
                    if fits(board, ctp@) {
                        lemma_row_len_mono(o, board, piece, yd as int, xmin as int, xend + 1, xhi + 1);
                        lemma_rows_len_mono(o, board, piece, xmin as int, xhi + 1, ymin as int, yd + 1, yhi + 1);
                        assert(cands_rows(o, board, piece, xmin as int, xhi + 1, ymin as int, yd + 1) == before
                            + cands_row(o, board, piece, yd as int, xmin as int, xhi + 1));
                        assert(cands_row(o, board, piece, yd as int, xmin as int, xend + 1) == cands_row(
                            o,
                            board,
                            piece,
                            yd as int,
                            xmin as int,
                            xend,
                        ) + cand_at(o, board, piece, xd as int, yd as int));
                    }
                }
                let placed = Omino::place(p, &ctp, shape, info);
                proof {
                    let here = cand_at(o, board, piece, xd as int, yd as int);
                    assert(cands_row(o, board, piece, yd as int, xmin as int, xend + 1) == cands_row(
                        o,
                        board,
                        piece,
                        yd as int,
                        xmin as int,
                        xend,
                    ) + here);
                    assert(before + cands_row(o, board, piece, yd as int, xmin as int, xend + 1)
                        =~= done + here);
                }
                match placed {
                    Some(opt) => {
                        let tp = Omino::raw(&ctp);
                        let ghost gv = opt;
                        let out = ext(opt, &tp);
                        proof {
                            let here = cand_at(o, board, piece, xd as int, yd as int);
                            let cand = here[0];
                            assert(cand == (placement(board, ctp@, piece), ctp@));
                            assert(ext_gives(ext, cand, out));
                            let old_outs = outs;
                            outs = outs.push(out);
                            assert(outs.drop_last() == old_outs);
                            assert forall|k: int| 0 <= k < outs.len() implies ext_gives(
                                ext,
                                (done + here)[k],
                                #[trigger] outs[k],
                            ) by {
                                if k < old_outs.len() {
                                    assert(outs[k] == old_outs[k]);
                                    assert((done + here)[k] == done[k]);
                                }
                            }
                        }
                        if out.len() > 0 {
                            os.push(out);
                        }
                    },
                    None => {},
                }
                proof {
                    xend = xend + 1;
                }
                if xd == xhi {
                    xgo = false;
                } else {
                    xd = xd + 1;
                }
            }
            proof {
                assert(cands_rows(o, board, piece, xmin as int, xhi + 1, ymin as int, yd + 1) == before
                    + cands_row(o, board, piece, yd as int, xmin as int, xhi + 1));
                if xend != xhi + 1 {
                    assert(cands_row(o, board, piece, yd as int, xmin as int, xhi + 1) =~= Seq::<
                        (Seq<Count>, Seq<Cell>),
                    >::empty());
                    assert(cands_row(o, board, piece, yd as int, xmin as int, xend) =~= Seq::<
                        (Seq<Count>, Seq<Cell>),
                    >::empty());
                }
                yend = yend + 1;
            }
            if yd == yhi {
                ygo = false;
            } else {
                yd = yd + 1;
            }
        }
        proof {
            if yend != yhi + 1 {
                assert(cands_rows(o, board, piece, xmin as int, xhi + 1, ymin as int, yhi + 1) =~= Seq::<
                    (Seq<Count>, Seq<Cell>),
                >::empty());
            }
            assert(candidates(self@, shape@, piece) == cands_rows(
                o,
                board,
                piece,
                xmin as int,
                xhi + 1,
                ymin as int,
                yhi + 1,
            ));
        }
        os
    }

    /// The options of piece `p` on the board `shape` (see
    /// [`Omino::options`]), all of them.
    pub fn all_options<S: SpecInfo>(&self, p: Count, shape: &Shape, info: &S) -> (r: Vec<
        Vec<S::OData>,
    >)
        requires
            self@.wf(),
            candidates(self@, shape@, p + info.cells()).len() > 0 ==> p + info.cells()
                <= usize::MAX,
        ensures
            vec_views(r@) == candidates(self@, shape@, p + info.cells()).map_values(
                |c: (Seq<Count>, Seq<Cell>)| entries::<S::OData>(c.0),
            ),
    {
        let ext = |c: Vec<S::OData>, t: &Omino| -> (out: Vec<S::OData>)
            ensures
                out == c,
            { c };
        let r = self.options(p, shape, info, ext);
        proof {
            let cands = candidates(self@, shape@, p + info.cells());
            let outs = choose|outs: Seq<Vec<S::OData>>|
                ext_outputs(ext, cands, outs) && r@ == nonempty(outs);
            assert forall|k: int| 0 <= k < outs.len() implies (#[trigger] outs[k])@ == entries::<
                S::OData,
            >(cands[k].0) && outs[k]@.len() > 0 by {
                assert(ext_gives(ext, cands[k], outs[k]));
                let (v, t) = choose|v: Vec<S::OData>, t: Omino|
                    v@ == entries::<S::OData>(cands[k].0) && t@ == raw_view(cands[k].1)
                        && #[trigger] call_ensures(ext, (v, &t), outs[k]);
                assert(outs[k] == v);
                assert(entries::<S::OData>(cands[k].0).len() == cands[k].0.len());
                assert(cands[k].0.len() > 0) by {
                    lemma_candidate_items(self@, shape@, p + info.cells(), k);
                }
            }
            lemma_nonempty_all(outs);
            assert(vec_views(r@) =~= cands.map_values(
                |c: (Seq<Count>, Seq<Cell>)| entries::<S::OData>(c.0),
            ));
        }
        r
    }

    /// The options of piece `p` on the board `shape` (see
    /// [`Omino::options`]) for the placed pieces that `f` accepts.
    pub fn options_filter<S: SpecInfo, G: Fn(&Omino) -> bool>(
        &self,
        p: Count,
        shape: &Shape,
        info: &S,
        f: G,
    ) -> (r: Vec<Vec<S::OData>>)
        requires
            self@.wf(),
            candidates(self@, shape@, p + info.cells()).len() > 0 ==> p + info.cells()
                <= usize::MAX,
            forall|t: Omino| call_requires(f, (&t,)),
        ensures
            exists|keep: Seq<bool>|
                #[trigger] judged_all(f, candidates(self@, shape@, p + info.cells()), keep)
                    && vec_views(r@) == selected::<S::OData>(
                    candidates(self@, shape@, p + info.cells()),
                    keep,
                ),
    {
        let fr = &f;
        let ext = move |c: Vec<S::OData>, q: &Omino| -> (out: Vec<S::OData>)
            requires
                call_requires(fr, (q,)),
            ensures
                exists|b: bool|
                    call_ensures(fr, (q,), b) && (b ==> out == c) && (!b ==> out@.len() == 0),
            {
                if fr(q) {
                    c
                } else {
                    Vec::new()
                }
            };
        assert forall|v: Vec<S::OData>, t: Omino| call_requires(ext, (v, &t)) by {
            assert(call_requires(f, (&t,)));
        }
        let r = self.options(p, shape, info, ext);
        proof {
            let cands = candidates(self@, shape@, p + info.cells());
            let outs = choose|outs: Seq<Vec<S::OData>>|
                ext_outputs(ext, cands, outs) && r@ == nonempty(outs);
            let keep = outs.map_values(|o: Vec<S::OData>| o@.len() > 0);
            assert forall|k: int| 0 <= k < keep.len() implies judged(f, cands[k].1, #[trigger] keep[k])
                && (keep[k] ==> outs[k]@ == entries::<S::OData>(cands[k].0)) by {
                assert(ext_gives(ext, cands[k], outs[k]));
                let (v, t) = choose|v: Vec<S::OData>, t: Omino|
                    v@ == entries::<S::OData>(cands[k].0) && t@ == raw_view(cands[k].1)
                        && #[trigger] call_ensures(ext, (v, &t), outs[k]);
                let b = choose|b: bool|
                    call_ensures(f, (&t,), b) && (b ==> outs[k] == v) && (!b ==> outs[k]@.len()
                        == 0);
                assert(cands[k].0.len() > 0) by {
                    lemma_candidate_items(self@, shape@, p + info.cells(), k);
                }
                assert(b == keep[k]);
            }
            lemma_selected::<S::OData>(cands, outs, keep);
            assert(judged_all(f, cands, keep));
        }
        r
    }
}


/// Row `i` of a rectangle `cols` wide.
pub open spec fn rect_row(i: int, cols: int) -> Seq<Cell> {
    Seq::new(cols as nat, |j: int| (j as Count, i as Count))
}

/// The cells of the first `rows` rows of a rectangle `cols` wide, row by
/// row.
pub open spec fn rect_cells(rows: int, cols: int) -> Seq<Cell>
    decreases rows,
{
    if rows <= 0 {
        Seq::empty()
    } else {
        rect_cells(rows - 1, cols) + rect_row(rows - 1, cols)
    }
}

/// The cells of a rectangle lie inside it.
proof fn lemma_rect_cells(rows: int, cols: int)
    requires
        rows >= 0,
        cols >= 0,
    ensures
        rect_cells(rows, cols).len() == rows * cols,
        forall|k: int|
            0 <= k < rect_cells(rows, cols).len() ==> (#[trigger] rect_cells(rows, cols)[k]).0
                < cols && rect_cells(rows, cols)[k].1 < rows,
    decreases rows,
{
    if rows == 0 {
        assert(rows * cols == 0) by (nonlinear_arith)
            requires
                rows == 0,
        ;
    } else {
        lemma_rect_cells(rows - 1, cols);
        let a = rect_cells(rows - 1, cols);
        let b = rect_row(rows - 1, cols);
        assert((rows - 1) * cols + cols == rows * cols) by (nonlinear_arith);
        assert forall|k: int| 0 <= k < (a + b).len() implies (#[trigger] (a + b)[k]).0 < cols && (a
            + b)[k].1 < rows by {
            if k < a.len() {
                assert((a + b)[k] == a[k]);
            } else {
                assert((a + b)[k] == b[k - a.len()]);
            }
        }
    }
}

/// The board of a rectangle of `rows` rows and `cols` columns.
pub fn rectangle(rows: Count, cols: Count) -> (r: Shape)
    requires
        rows >= 1,
        cols >= 1,
    ensures
        r@ == (OminoV {
            c: rect_cells(rows as int, cols as int),
            xmin: 0,
            ymin: 0,
            xmax: (cols - 1) as Count,
            ymax: (rows - 1) as Count,
        }),
        r@.wf(),
{
    let mut c: Vec<Cell> = Vec::new();
    let mut i: usize = 0;
    while i < rows
        invariant
            i <= rows,
            c@ == rect_cells(i as int, cols as int),
        decreases rows - i,
    {
        let mut j: usize = 0;
        while j < cols
            invariant
                i < rows,
                j <= cols,
                c@ == rect_cells(i as int, cols as int) + rect_row(i as int, cols as int).take(j as int),
            decreases cols - j,
        {
            c.push((j, i));
            proof {
                let ghost row = rect_row(i as int, cols as int);
                assert(row.take(j + 1) == row.take(j as int).push((j, i)));
            }
            j = j + 1;
        }
        assert(rect_row(i as int, cols as int).take(cols as int) == rect_row(i as int, cols as int));
        i = i + 1;
    }
    proof {
        lemma_rect_cells(rows as int, cols as int);
        assert(rows * cols >= 1) by (nonlinear_arith)
            requires
                rows >= 1,
                cols >= 1,
        ;
    }
    Shape { c, xmin: 0, ymin: 0, xmax: cols - 1, ymax: rows - 1 }
}

/// The items of the entries of an option.
pub open spec fn items_of<D: OptData>(v: Seq<D>) -> Seq<Count> {
    v.map_values(|d: D| d.item_of())
}

/// The pieces that an option names (items `cells..cells + pieces`), as
/// piece numbers, in order.
pub open spec fn opt_pieces(items: Seq<Count>, cells: int, pieces: int) -> Seq<Count>
    decreases items.len(),
{
    if items.len() == 0 {
        Seq::empty()
    } else if cells <= items.last() < cells + pieces {
        opt_pieces(items.drop_last(), cells, pieces).push((items.last() - cells) as Count)
    } else {
        opt_pieces(items.drop_last(), cells, pieces)
    }
}

/// The cells that an option names (items below `cells`), in order.
pub open spec fn opt_cells(items: Seq<Count>, cells: int) -> Seq<Count>
    decreases items.len(),
{
    if items.len() == 0 {
        Seq::empty()
    } else if items.last() < cells {
        opt_cells(items.drop_last(), cells).push(items.last())
    } else {
        opt_cells(items.drop_last(), cells)
    }
}

/// The pieces and cells that an option names are in range.
proof fn lemma_opt_parts(items: Seq<Count>, cells: int, pieces: int, b: int)
    requires
        forall|j: int| 0 <= j < items.len() && #[trigger] items[j] < cells ==> items[j] < b,
    ensures
        forall|k: int|
            0 <= k < opt_pieces(items, cells, pieces).len() ==> #[trigger] opt_pieces(
                items,
                cells,
                pieces,
            )[k] < pieces,
        forall|k: int|
            0 <= k < opt_cells(items, cells).len() ==> #[trigger] opt_cells(items, cells)[k] < b,
    decreases items.len(),
{
    if items.len() > 0 {
        let t = items.drop_last();
        assert forall|j: int| 0 <= j < t.len() && #[trigger] t[j] < cells implies t[j] < b by {
            assert(t[j] == items[j]);
        }
        lemma_opt_parts(t, cells, pieces, b);
        assert(items.last() == items[items.len() - 1]);
        let pp = opt_pieces(t, cells, pieces);
        let cc = opt_cells(t, cells);
        assert forall|k: int| 0 <= k < opt_pieces(items, cells, pieces).len() implies #[trigger] opt_pieces(
            items,
            cells,
            pieces,
        )[k] < pieces by {
            if k < pp.len() {
                assert(opt_pieces(items, cells, pieces)[k] == pp[k]);
            }
        }
        assert forall|k: int| 0 <= k < opt_cells(items, cells).len() implies #[trigger] opt_cells(
            items,
            cells,
        )[k] < b by {
            if k < cc.len() {
                assert(opt_cells(items, cells)[k] == cc[k]);
            }
        }
    }
}

/// A grid of `h` rows of `w` empty squares.
pub open spec fn blank(w: int, h: int) -> Seq<Seq<(Count, Count)>> {
    Seq::new(h as nat, |y: int| Seq::new(w as nat, |x: int| (0usize, 0usize)))
}

/// The grid with the squares of cells `cs` set to `v`, in order.
pub open spec fn paint(g: Seq<Seq<(Count, Count)>>, cs: Seq<Cell>, v: (Count, Count)) -> Seq<
    Seq<(Count, Count)>,
>
    decreases cs.len(),
{
    if cs.len() == 0 {
        g
    } else {
        let h = paint(g, cs.drop_last(), v);
        let (x, y) = cs.last();
        h.update(y as int, h[y as int].update(x as int, v))
    }
}

/// The grid and the number of placed pieces after the options `sol` of
/// `os`: an option that names exactly one piece and at least one cell
/// paints its cells (of `shape`) with its placement number and its piece
/// number, both counted from 1; any other option is passed over.
pub open spec fn grid_after(
    g0: Seq<Seq<(Count, Count)>>,
    sol: Seq<Data>,
    os: Seq<Seq<Count>>,
    shape: Seq<Cell>,
    cells: int,
    pieces: int,
) -> (Seq<Seq<(Count, Count)>>, int)
    decreases sol.len(),
{
    if sol.len() == 0 {
        (g0, 0)
    } else {
        let (g, idx) = grid_after(g0, sol.drop_last(), os, shape, cells, pieces);
        let items = os[sol.last() as int];
        let ps = opt_pieces(items, cells, pieces);
        let cs = opt_cells(items, cells);
        if ps.len() != 1 || cs.len() == 0 {
            (g, idx)
        } else {
            (
                paint(
                    g,
                    cs.map_values(|k: Count| shape[k as int]),
                    ((idx + 1) as Count, (ps[0] + 1) as Count),
                ),
                idx + 1,
            )
        }
    }
}

/// A grid as values: for each square, the number of the placement that
/// covers it and its piece number (both from 1, or 0), and the number of
/// pieces.
pub struct SolutionGridV {
    pub cells: Seq<Seq<(Count, Count)>>,
    pub piece_count: Count,
}

/// The squares of a board's bounding box, each with the placement that
/// covers it in a solution.
pub struct SolutionGrid {
    cells: Vec<Vec<(Count, Count)>>,
    piece_count: Count,
}

impl View for SolutionGrid {
    type V = SolutionGridV;

    closed spec fn view(&self) -> SolutionGridV {
        SolutionGridV { cells: self.cells@.map_values(|r: Vec<(Count, Count)>| r@), piece_count: self.piece_count }
    }
}

/// A grid is rectangular: `h` rows of `w` squares.
pub open spec fn grid_shape(g: Seq<Seq<(Count, Count)>>, w: int, h: int) -> bool {
    &&& g.len() == h
    &&& forall|y: int| 0 <= y < h ==> (#[trigger] g[y]).len() == w
}

/// Painting keeps the shape of a grid.
proof fn lemma_paint_shape(g: Seq<Seq<(Count, Count)>>, cs: Seq<Cell>, v: (Count, Count), w: int, h: int)
    requires
        grid_shape(g, w, h),
        forall|k: int| 0 <= k < cs.len() ==> (#[trigger] cs[k]).0 < w && cs[k].1 < h,
    ensures
        grid_shape(paint(g, cs, v), w, h),
    decreases cs.len(),
{
    if cs.len() > 0 {
        lemma_paint_shape(g, cs.drop_last(), v, w, h);
        let last = cs[cs.len() - 1];
        assert(last.0 < w && last.1 < h);
    }
}

/// Each square that shows a placement shows a piece number in
/// `1..=pieces`.
pub open spec fn pieces_ok(g: Seq<Seq<(Count, Count)>>, pieces: int) -> bool {
    forall|y: int, x: int|
        0 <= y < g.len() && 0 <= x < g[y].len() && (#[trigger] g[y][x]).0 != 0 ==> 1 <= g[y][x].1
            <= pieces
}

/// Painting with a placement and a piece number in range keeps the piece
/// numbers in range.
proof fn lemma_paint_pieces(
    g: Seq<Seq<(Count, Count)>>,
    cs: Seq<Cell>,
    v: (Count, Count),
    pieces: int,
    w: int,
    hh: int,
)
    requires
        pieces_ok(g, pieces),
        1 <= v.1 <= pieces,
        grid_shape(g, w, hh),
        forall|k: int| 0 <= k < cs.len() ==> (#[trigger] cs[k]).0 < w && cs[k].1 < hh,
    ensures
        pieces_ok(paint(g, cs, v), pieces),
    decreases cs.len(),
{
    if cs.len() > 0 {
        let c0 = cs.drop_last();
        assert forall|k: int| 0 <= k < c0.len() implies (#[trigger] c0[k]).0 < w && c0[k].1 < hh by {
            assert(c0[k] == cs[k]);
        }
        lemma_paint_pieces(g, c0, v, pieces, w, hh);
        lemma_paint_shape(g, c0, v, w, hh);
        let h = paint(g, c0, v);
        let (x, y) = cs.last();
        assert(cs.last() == cs[cs.len() - 1]);
        let t = paint(g, cs, v);
        assert forall|yy: int, xx: int|
            0 <= yy < t.len() && 0 <= xx < t[yy].len() && (#[trigger] t[yy][xx]).0 != 0 implies 1
            <= t[yy][xx].1 <= pieces by {
            if yy == y as int {
                if xx != x as int {
                    assert(t[yy][xx] == h[yy][xx]);
                }
            } else {
                assert(t[yy] == h[yy]);
            }
        }
    }
}

/// The entries of an option that name items.
fn option_parts<S: SpecInfo>(opt: &Vec<S::OData>, info: &S) -> (r: (Vec<Count>, Vec<Count>))
    requires
        info.cells() + info.pieces() <= usize::MAX,
    ensures
        r.0@ == opt_pieces(items_of(opt@), info.cells() as int, info.pieces() as int),
        r.1@ == opt_cells(items_of(opt@), info.cells() as int),
{
    let pr = info.piece_range();
    let cr = info.cell_range();
    let mut ps: Vec<Count> = Vec::new();
    let mut cs: Vec<Count> = Vec::new();
    let mut i: usize = 0;
    while i < opt.len()
        invariant
            i <= opt.len(),
            pr.start == info.cells(),
            pr.end == info.cells() + info.pieces(),
            cr.start == 0,
            cr.end == info.cells(),
            ps@ == opt_pieces(items_of(opt@.take(i as int)), info.cells() as int, info.pieces() as int),
            cs@ == opt_cells(items_of(opt@.take(i as int)), info.cells() as int),
        decreases opt.len() - i,
    {
        let ghost t = items_of(opt@.take(i + 1));
        assert(t.drop_last() == items_of(opt@.take(i as int)));
        assert(t.last() == opt@[i as int].item_of());
        let it = opt[i].get_item();
        if pr.start <= it && it < pr.end {
            ps.push(info.item_to_piece(&opt[i]));
        } else if cr.start <= it && it < cr.end {
            cs.push(info.item_to_cell(&opt[i]));
        }
        i = i + 1;
    }
    assert(opt@.take(opt@.len() as int) == opt@);
    (ps, cs)
}

impl SolutionGrid {
    /// The grid of a solution `sol` (option numbers into `os`) on the
    /// board `shape`: each option that names exactly one piece and at least
    /// one cell is placed, numbered from 1 in the order of `sol`, and its
    /// cells show that number and its piece number (from 1); the other
    /// squares show `(0, 0)`.
    pub fn new<S: SpecInfo>(sol: &[Data], info: &S, os: &[Vec<S::OData>], shape: &Shape) -> (r:
        SolutionGrid)
        requires
            shape@.wf(),
            shape@.xmax < usize::MAX,
            shape@.ymax < usize::MAX,
            info.cells() + info.pieces() <= usize::MAX,
            forall|n: int| 0 <= n < sol@.len() ==> 0 <= #[trigger] sol@[n] < os@.len(),
            forall|n: int, k: int|
                0 <= n < os@.len() && 0 <= k < os@[n]@.len() && #[trigger] os@[n]@[k].item_of()
                    < info.cells() ==> os@[n]@[k].item_of() < shape@.c.len(),
        ensures
            r@.cells == grid_after(
                blank(shape@.xmax + 1, shape@.ymax + 1),
                sol@,
                os@.map_values(|v: Vec<S::OData>| items_of(v@)),
                shape@.c,
                info.cells() as int,
                info.pieces() as int,
            ).0,
            r@.piece_count == info.pieces(),
            grid_shape(r@.cells, shape@.xmax + 1, shape@.ymax + 1),
            pieces_ok(r@.cells, info.pieces() as int),
    {
        let w = shape.xmax + 1;
        let h = shape.ymax + 1;
        let ghost oss = os@.map_values(|v: Vec<S::OData>| items_of(v@));
        let ghost g0 = blank(w as int, h as int);
        let mut cells: Vec<Vec<(Count, Count)>> = Vec::new();
        let mut y: usize = 0;
        while y < h
            invariant
                y <= h,
                cells@.len() == y,
                forall|k: int| 0 <= k < y ==> (#[trigger] cells@[k])@ == g0[k],
                g0 == blank(w as int, h as int),
            decreases h - y,
        {
            let mut row: Vec<(Count, Count)> = Vec::new();
            let mut x: usize = 0;
            while x < w
                invariant
                    x <= w,
                    row@ == Seq::new(x as nat, |k: int| (0usize, 0usize)),
                decreases w - x,
            {
                row.push((0, 0));
                x = x + 1;
                assert(row@ =~= Seq::new(x as nat, |k: int| (0usize, 0usize)));
            }
            cells.push(row);
            y = y + 1;
        }
        let mut idx: usize = 0;
        let mut n: usize = 0;
        assert(cells@.map_values(|r: Vec<(Count, Count)>| r@) =~= g0);
        while n < sol.len()
            invariant
                n <= sol.len(),
                shape@.wf(),
                w == shape@.xmax + 1,
                h == shape@.ymax + 1,
                info.cells() + info.pieces() <= usize::MAX,
                forall|m: int| 0 <= m < sol@.len() ==> 0 <= #[trigger] sol@[m] < os@.len(),
                forall|m: int, k: int|
                    0 <= m < os@.len() && 0 <= k < os@[m]@.len() && #[trigger] os@[m]@[k].item_of()
                        < info.cells() ==> os@[m]@[k].item_of() < shape@.c.len(),
                oss == os@.map_values(|v: Vec<S::OData>| items_of(v@)),
                g0 == blank(w as int, h as int),
                grid_shape(cells@.map_values(|r: Vec<(Count, Count)>| r@), w as int, h as int),
                pieces_ok(cells@.map_values(|r: Vec<(Count, Count)>| r@), info.pieces() as int),
                (cells@.map_values(|r: Vec<(Count, Count)>| r@), idx as int) == grid_after(
                    g0,
                    sol@.take(n as int),
                    oss,
                    shape@.c,
                    info.cells() as int,
                    info.pieces() as int,
                ),
                idx <= n,
            decreases sol.len() - n,
        {
            let ghost before = cells@.map_values(|r: Vec<(Count, Count)>| r@);
            let ghost t = sol@.take(n + 1);
            assert(t.drop_last() == sol@.take(n as int));
            let oi = sol[n] as usize;
            let opt = &os[oi];
            let (ps, cs) = option_parts(opt, info);
            assert(oss[oi as int] == items_of(opt@));
            proof {
                let its = items_of(opt@);
                assert forall|j: int| 0 <= j < its.len() && #[trigger] its[j] < info.cells() implies its[j]
                    < shape@.c.len() by {
                    assert(its[j] == os@[oi as int]@[j].item_of());
                }
                lemma_opt_parts(its, info.cells() as int, info.pieces() as int, shape@.c.len() as int);
            }
            if ps.len() == 1 && cs.len() > 0 {
                let v = (idx + 1, ps[0] + 1);
                let ghost pts = cs@.map_values(|k: Count| shape@.c[k as int]);
                proof {
                    assert forall|j: int| 0 <= j < pts.len() implies (#[trigger] pts[j]).0 < w && pts[j].1 < h by {
                        assert(cs@[j] < shape@.c.len());
                        assert(pts[j] == shape@.c[cs@[j] as int]);
                    }
                    lemma_paint_shape(before, pts, v, w as int, h as int);
                    assert(ps@[0] < info.pieces());
                    lemma_paint_pieces(before, pts, v, info.pieces() as int, w as int, h as int);
                }
                let mut k: usize = 0;
                while k < cs.len()
                    invariant
                        k <= cs.len(),
                        shape@.wf(),
                        w == shape@.xmax + 1,
                        h == shape@.ymax + 1,
                        pts == cs@.map_values(|k: Count| shape@.c[k as int]),
                        forall|j: int| 0 <= j < cs@.len() ==> #[trigger] cs@[j] < shape@.c.len(),
                        forall|j: int| 0 <= j < pts.len() ==> (#[trigger] pts[j]).0 < w && pts[j].1 < h,
                        grid_shape(before, w as int, h as int),
                        cells@.map_values(|r: Vec<(Count, Count)>| r@) == paint(before, pts.take(k as int), v),
                    decreases cs.len() - k,
                {
                    proof {
                        assert(pts.take(k + 1).drop_last() == pts.take(k as int));
                        lemma_paint_shape(before, pts.take(k as int), v, w as int, h as int);
                        assert(pts[k as int] == shape@.c[cs@[k as int] as int]);
                    }
                    let (x, y) = shape.cell_at(cs[k]);
                    let ghost g = cells@.map_values(|r: Vec<(Count, Count)>| r@);
                    proof {
                        assert(grid_shape(g, w as int, h as int));
                        assert(x < w && y < h);
                        assert(g[y as int] == cells@[y as int]@);
                    }
                    cells[y].set(x, v);
                    assert(cells@.map_values(|r: Vec<(Count, Count)>| r@) =~= g.update(y as int, g[y as int].update(x as int, v)));
                    k = k + 1;
                }
                assert(pts.take(cs@.len() as int) == pts);
                idx = idx + 1;
            }
            n = n + 1;
        }
        assert(sol@.take(sol@.len() as int) == sol@);
        SolutionGrid { cells, piece_count: info.piece_count() }
    }

    /// The number of pieces.
    pub fn piece_count(&self) -> (r: Count)
        ensures
            r == self@.piece_count,
    {
        self.piece_count
    }

    /// The squares, row by row.
    pub fn cells(&self) -> (r: &[Vec<(Count, Count)>])
        ensures
            r@.map_values(|v: Vec<(Count, Count)>| v@) == self@.cells,
    {
        self.cells.as_slice()
    }
}


/// The cells of pentomino `k`, in the order O, P, Q, R, S, T, U, V, W, X, Y, Z.
pub open spec fn pentomino_cells(k: int) -> Seq<Cell> {
    if k == 0 {
        seq![(0, 0), (1, 0), (2, 0), (3, 0), (4, 0)]
    } else if k == 1 {
        seq![(0, 0), (1, 0), (0, 1), (1, 1), (0, 2)]
    } else if k == 2 {
        seq![(0, 0), (1, 0), (2, 0), (3, 0), (3, 1)]
    } else if k == 3 {
        seq![(1, 0), (2, 0), (0, 1), (1, 1), (1, 2)]
    } else if k == 4 {
        seq![(2, 0), (3, 0), (0, 1), (1, 1), (2, 1)]
    } else if k == 5 {
        seq![(0, 0), (1, 0), (2, 0), (1, 1), (1, 2)]
    } else if k == 6 {
        seq![(0, 0), (2, 0), (0, 1), (1, 1), (2, 1)]
    } else if k == 7 {
        seq![(0, 0), (0, 1), (0, 2), (1, 2), (2, 2)]
    } else if k == 8 {
        seq![(0, 0), (0, 1), (1, 1), (1, 2), (2, 2)]
    } else if k == 9 {
        seq![(1, 0), (0, 1), (1, 1), (2, 1), (1, 2)]
    } else if k == 10 {
        seq![(2, 0), (0, 1), (1, 1), (2, 1), (3, 1)]
    } else if k == 11 {
        seq![(0, 0), (1, 0), (1, 1), (1, 2), (2, 2)]
    } else {
        Seq::empty()
    }
}

/// The twelve pentominoes, normalized, in the order O, P, Q, R, S, T, U,
/// V, W, X, Y, Z.
pub fn pentominoes() -> (r: Vec<Omino>)
    ensures
        views(r@) == Seq::new(12, |k: int| normal_view(pentomino_cells(k))),
        forall|k: int| 0 <= k < r@.len() ==> (#[trigger] r@[k])@.wf(),
{
    let mut ps: Vec<Omino> = Vec::new();
    ps.push(Omino::new(&[(0, 0), (1, 0), (2, 0), (3, 0), (4, 0)]));  // O
    ps.push(Omino::new(&[(0, 0), (1, 0), (0, 1), (1, 1), (0, 2)]));  // P
    ps.push(Omino::new(&[(0, 0), (1, 0), (2, 0), (3, 0), (3, 1)]));  // Q
    ps.push(Omino::new(&[(1, 0), (2, 0), (0, 1), (1, 1), (1, 2)]));  // R
    ps.push(Omino::new(&[(2, 0), (3, 0), (0, 1), (1, 1), (2, 1)]));  // S
    ps.push(Omino::new(&[(0, 0), (1, 0), (2, 0), (1, 1), (1, 2)]));  // T
    ps.push(Omino::new(&[(0, 0), (2, 0), (0, 1), (1, 1), (2, 1)]));  // U
    ps.push(Omino::new(&[(0, 0), (0, 1), (0, 2), (1, 2), (2, 2)]));  // V
    ps.push(Omino::new(&[(0, 0), (0, 1), (1, 1), (1, 2), (2, 2)]));  // W
    ps.push(Omino::new(&[(1, 0), (0, 1), (1, 1), (2, 1), (1, 2)]));  // X
    ps.push(Omino::new(&[(2, 0), (0, 1), (1, 1), (2, 1), (3, 1)]));  // Y
    ps.push(Omino::new(&[(0, 0), (1, 0), (1, 1), (1, 2), (2, 2)]));  // Z
    assert(views(ps@) =~= Seq::new(12, |k: int| normal_view(pentomino_cells(k))));
    ps
}

/// Twelve colors, one for each pentomino.
pub const PALETTE_12: [(u8, u8, u8); 12] = [
    (216, 178, 178),
    (255, 191, 127),
    (127, 51, 0),
    (229, 229, 242),
    (255, 255, 0),
    (255, 204, 204),
    (127, 0, 204),
    (76, 102, 204),
    (0, 127, 0),
    (255, 0, 127),
    (63, 255, 63),
    (242, 242, 191),
];

/// Thirty-five colors, one for each hexomino.
pub const PALETTE_35: [(u8, u8, u8); 35] = [
    (0, 128, 128),
    (248, 2, 255),
    (188, 143, 142),
    (143, 86, 62),
    (191, 192, 255),
    (165, 42, 43),
    (161, 211, 167),
    (128, 255, 128),
    (220, 111, 148),
    (203, 158, 112),
    (218, 152, 24),
    (1, 191, 2),
    (1, 255, 255),
    (72, 61, 140),
    (255, 255, 0),
    (127, 128, 0),
    (243, 153, 8),
    (204, 93, 91),
    (173, 216, 231),
    (255, 229, 197),
    (255, 2, 255),
    (70, 130, 180),
    (18, 255, 171),
    (211, 105, 29),
    (191, 214, 72),
    (239, 220, 1),
    (255, 51, 68),
    (58, 76, 200),
    (0, 0, 255),
    (255, 1, 0),
    (188, 255, 10),
    (255, 191, 51),
    (255, 192, 193),
    (242, 155, 214),
    (254, 160, 121),
];

/// One step of drawing a solution grid.
#[derive(Debug, Clone, Copy, PartialEq, Eq)]
pub enum Draw {
    /// A square with its corner at `(x, y)`, of the given side, filled
    /// with a color.
    Fill(i32, i32, i32, (u8, u8, u8)),
    /// A black line from `(x0, y0)` to `(x1, y1)`.
    Line(i32, i32, i32, i32),
}

/// The position of square `k` along an axis that starts at `off`.
pub open spec fn at(off: int, k: int, size: int) -> int {
    off + k * size
}

/// What square `(x, y)` of grid `g` draws: its color when a placement
/// covers it, a left border where the placement changes from the square on
/// its left (or at the left edge), and a top border where it changes from
/// the square above (or at the top edge).
pub open spec fn square_cmds(
    g: Seq<Seq<(Count, Count)>>,
    x: int,
    y: int,
    size: int,
    xo: int,
    yo: int,
    pal: Seq<(u8, u8, u8)>,
) -> Seq<Draw> {
    let c = g[y][x];
    let tx = at(xo, x, size);
    let ty = at(yo, y, size);
    let fill = if c.0 != 0 {
        seq![Draw::Fill(tx as i32, ty as i32, size as i32, pal[c.1 - 1])]
    } else {
        Seq::empty()
    };
    let left = if (x == 0 && c.0 != 0) || (x > 0 && c.0 != g[y][x - 1].0) {
        seq![Draw::Line(tx as i32, ty as i32, tx as i32, (ty + size) as i32)]
    } else {
        Seq::empty()
    };
    let top = if (y == 0 && c.0 != 0) || (y > 0 && g[y - 1][x].0 != c.0) {
        seq![Draw::Line(tx as i32, ty as i32, (tx + size) as i32, ty as i32)]
    } else {
        Seq::empty()
    };
    fill + left + top
}

/// What the squares `0..x_end` of row `y` draw.
pub open spec fn row_cmds(
    g: Seq<Seq<(Count, Count)>>,
    y: int,
    x_end: int,
    size: int,
    xo: int,
    yo: int,
    pal: Seq<(u8, u8, u8)>,
) -> Seq<Draw>
    decreases x_end,
{
    if x_end <= 0 {
        Seq::empty()
    } else {
        row_cmds(g, y, x_end - 1, size, xo, yo, pal) + square_cmds(g, x_end - 1, y, size, xo, yo, pal)
    }
}

/// The right border of row `y` (of `w` squares), when its last square
/// shows a piece.
pub open spec fn row_end(g: Seq<Seq<(Count, Count)>>, y: int, w: int, size: int, xo: int, yo: int) -> Seq<
    Draw,
> {
    if g[y][w - 1].1 != 0 {
        let tx = at(xo, w - 1, size) + size;
        let ty = at(yo, y, size);
        seq![Draw::Line(tx as i32, ty as i32, tx as i32, (ty + size) as i32)]
    } else {
        Seq::empty()
    }
}

/// What the rows `0..y_end` draw.
pub open spec fn rows_cmds(
    g: Seq<Seq<(Count, Count)>>,
    y_end: int,
    w: int,
    size: int,
    xo: int,
    yo: int,
    pal: Seq<(u8, u8, u8)>,
) -> Seq<Draw>
    decreases y_end,
{
    if y_end <= 0 {
        Seq::empty()
    } else {
        rows_cmds(g, y_end - 1, w, size, xo, yo, pal) + row_cmds(g, y_end - 1, w, size, xo, yo, pal)
            + row_end(g, y_end - 1, w, size, xo, yo)
    }
}

/// The bottom borders under the squares `0..x_end` of the last row (row
/// `h - 1`) that show a placement.
pub open spec fn bottom_cmds(g: Seq<Seq<(Count, Count)>>, x_end: int, h: int, size: int, xo: int, yo: int) -> Seq<
    Draw,
>
    decreases x_end,
{
    if x_end <= 0 {
        Seq::empty()
    } else {
        let x = x_end - 1;
        let ty = at(yo, h - 1, size) + size;
        let here = if g[h - 1][x].0 != 0 {
            seq![Draw::Line(at(xo, x, size) as i32, ty as i32, at(xo, x + 1, size) as i32, ty as i32)]
        } else {
            Seq::empty()
        };
        bottom_cmds(g, x, h, size, xo, yo) + here
    }
}

/// The drawing of a grid of `h` rows of `w` squares with squares of side
/// `size`, its corner at `(xo, yo)`, piece `k` in color `pal[k - 1]`.
pub open spec fn draw_cmds(
    g: Seq<Seq<(Count, Count)>>,
    w: int,
    h: int,
    size: int,
    xo: int,
    yo: int,
    pal: Seq<(u8, u8, u8)>,
) -> Seq<Draw> {
    rows_cmds(g, h, w, size, xo, yo, pal) + bottom_cmds(g, w, h, size, xo, yo)
}

/// Positions between the first and the last one fit when both ends do.
proof fn lemma_at_fits(off: int, k: int, n: int, size: int)
    requires
        0 <= k <= n,
        i32::MIN <= off <= i32::MAX,
        i32::MIN <= n * size <= i32::MAX,
        i32::MIN <= off + n * size <= i32::MAX,
    ensures
        i32::MIN <= k * size <= i32::MAX,
        i32::MIN <= at(off, k, size) <= i32::MAX,
{
    if size >= 0 {
        assert(0 <= k * size <= n * size) by (nonlinear_arith)
            requires
                0 <= k <= n,
                size >= 0,
        ;
    } else {
        assert(n * size <= k * size <= 0) by (nonlinear_arith)
            requires
                0 <= k <= n,
                size < 0,
        ;
    }
}

/// The next position is one side further.
proof fn lemma_at_next(off: int, k: int, size: int)
    ensures
        at(off, k + 1, size) == at(off, k, size) + size,
{
    assert((k + 1) * size == k * size + size) by (nonlinear_arith);
}

/// The drawing of a grid fits in `i32` coordinates: squares of side
/// `size`, corner at `(xo, yo)`.
pub open spec fn draw_fits(w: int, h: int, size: int, xo: int, yo: int) -> bool {
    &&& 1 <= w < i32::MAX
    &&& 1 <= h < i32::MAX
    &&& i32::MIN <= (w + 1) * size <= i32::MAX
    &&& i32::MIN <= (h + 1) * size <= i32::MAX
    &&& i32::MIN <= xo + (w + 1) * size <= i32::MAX
    &&& i32::MIN <= yo + (h + 1) * size <= i32::MAX
}

/// The colors of the pieces shown in a grid are in the palette.
pub open spec fn colors_ok(g: Seq<Seq<(Count, Count)>>, pal: Seq<(u8, u8, u8)>) -> bool {
    forall|y: int, x: int|
        0 <= y < g.len() && 0 <= x < g[y].len() && (#[trigger] g[y][x]).0 != 0 ==> 1 <= g[y][x].1
            <= pal.len()
}

/// Add what square `(x, y)` draws.
fn push_square(
    out: &mut Vec<Draw>,
    grid: &SolutionGrid,
    x: usize,
    y: usize,
    size: i32,
    x_off: i32,
    y_off: i32,
    palette: &[(u8, u8, u8)],
)
    requires
        grid_shape(grid@.cells, grid@.cells[0].len() as int, grid@.cells.len() as int),
        draw_fits(grid@.cells[0].len() as int, grid@.cells.len() as int, size as int, x_off as int, y_off as int),
        colors_ok(grid@.cells, palette@),
        x < grid@.cells[0].len(),
        y < grid@.cells.len(),
    ensures
        final(out)@ == old(out)@ + square_cmds(grid@.cells, x as int, y as int, size as int, x_off as int, y_off as int, palette@),
{
    let ghost g = grid@.cells;
    let ghost (wi, hi) = (g[0].len() as int, g.len() as int);
    proof {
        lemma_at_fits(x_off as int, x as int, wi + 1, size as int);
        lemma_at_fits(x_off as int, x + 1, wi + 1, size as int);
        lemma_at_fits(y_off as int, y as int, hi + 1, size as int);
        lemma_at_fits(y_off as int, y + 1, hi + 1, size as int);
        lemma_at_next(x_off as int, x as int, size as int);
        lemma_at_next(y_off as int, y as int, size as int);
    }
    let row = &grid.cells[y];
    assert(row@ == g[y as int]);
    assert(row@.len() == wi);
    let tx = x_off + (x as i32) * size;
    let ty = y_off + (y as i32) * size;
    let c = row[x];
    let ghost prev = out@;
    if c.0 != 0 {
        assert(1 <= g[y as int][x as int].1 <= palette@.len());
        out.push(Draw::Fill(tx, ty, size, palette[c.1 - 1]));
    }
    if (x == 0 && c.0 != 0) || (x > 0 && c.0 != row[x - 1].0) {
        out.push(Draw::Line(tx, ty, tx, ty + size));
    }
    if y > 0 {
        assert(grid.cells@[y - 1]@ == g[y - 1]);
        assert(g[y - 1].len() == wi);
    }
    if (y == 0 && c.0 != 0) || (y > 0 && grid.cells[y - 1][x].0 != c.0) {
        out.push(Draw::Line(tx, ty, tx + size, ty));
    }
    assert(out@ =~= prev + square_cmds(g, x as int, y as int, size as int, x_off as int, y_off as int, palette@));
}

/// What drawing `grid` with squares of side `size`, its corner at
/// `(x_off, y_off)` and piece `k` in color `palette[k - 1]` consists of,
/// in order.
pub fn draw_steps(grid: &SolutionGrid, size: i32, x_off: i32, y_off: i32, palette: &[(u8, u8, u8)]) -> (r:
    Vec<Draw>)
    requires
        grid_shape(grid@.cells, grid@.cells[0].len() as int, grid@.cells.len() as int),
        draw_fits(grid@.cells[0].len() as int, grid@.cells.len() as int, size as int, x_off as int, y_off as int),
        colors_ok(grid@.cells, palette@),
    ensures
        r@ == draw_cmds(
            grid@.cells,
            grid@.cells[0].len() as int,
            grid@.cells.len() as int,
            size as int,
            x_off as int,
            y_off as int,
            palette@,
        ),
{
    let ghost g = grid@.cells;
    let h = grid.cells.len();
    let w = grid.cells[0].len();
    assert(g[0] == grid.cells@[0]@);
    let ghost (wi, hi, si, xi, yi) = (w as int, h as int, size as int, x_off as int, y_off as int);
    let mut out: Vec<Draw> = Vec::new();
    let mut y: usize = 0;
    while y < h
        invariant
            y <= h,
            g == grid@.cells,
            h == g.len(),
            wi == w,
            hi == h,
            si == size,
            xi == x_off,
            yi == y_off,
            grid_shape(g, wi, hi),
            draw_fits(wi, hi, si, xi, yi),
            colors_ok(g, palette@),
            out@ == rows_cmds(g, y as int, wi, si, xi, yi, palette@),
        decreases h - y,
    {
        let row = &grid.cells[y];
        assert(row@ == g[y as int]);
        proof {
            lemma_at_fits(yi, y as int, hi + 1, si);
            lemma_at_fits(yi, y + 1, hi + 1, si);
        }
        let ty = y_off + (y as i32) * size;
        proof {
            lemma_at_next(yi, y as int, si);
        }
        let mut x: usize = 0;
        let ghost before = out@;
        while x < w
            invariant
                x <= w,
                y < h,
                g == grid@.cells,
                row@ == g[y as int],
                h == g.len(),
                wi == w,
                hi == h,
                si == size,
                xi == x_off,
                yi == y_off,
                grid_shape(g, wi, hi),
                draw_fits(wi, hi, si, xi, yi),
                colors_ok(g, palette@),
                ty == at(yi, y as int, si),
                i32::MIN <= ty + si <= i32::MAX,
                before == rows_cmds(g, y as int, wi, si, xi, yi, palette@),
                out@ == before + row_cmds(g, y as int, x as int, si, xi, yi, palette@),
            decreases w - x,
        {
            push_square(&mut out, grid, x, y, size, x_off, y_off, palette);
            x = x + 1;
        }
        if row[w - 1].1 != 0 {
            proof {
                lemma_at_fits(xi, wi, wi + 1, si);
                lemma_at_fits(xi, wi - 1, wi + 1, si);
                lemma_at_next(xi, wi - 1, si);
            }
            let tx = x_off + ((w - 1) as i32) * size + size;
            out.push(Draw::Line(tx, ty, tx, ty + size));
        }
        assert(out@ =~= before + row_cmds(g, y as int, wi, si, xi, yi, palette@) + row_end(g, y as int, wi, si, xi, yi));
        y = y + 1;
    }
    let last = &grid.cells[h - 1];
    assert(last@ == g[hi - 1]);
    proof {
        lemma_at_fits(yi, hi, hi + 1, si);
        lemma_at_fits(yi, hi - 1, hi + 1, si);
        lemma_at_next(yi, hi - 1, si);
    }
    let ty = y_off + ((h - 1) as i32) * size + size;
    let ghost top = out@;
    let mut x: usize = 0;
    while x < w
        invariant
            x <= w,
            g == grid@.cells,
            last@ == g[hi - 1],
            h == g.len(),
            wi == w,
            hi == h,
            si == size,
            xi == x_off,
            yi == y_off,
            grid_shape(g, wi, hi),
            draw_fits(wi, hi, si, xi, yi),
            ty == at(yi, hi - 1, si) + si,
            out@ == top + bottom_cmds(g, x as int, hi, si, xi, yi),
        decreases w - x,
    {
        proof {
            lemma_at_fits(xi, x as int, wi + 1, si);
            lemma_at_fits(xi, x + 1, wi + 1, si);
        }
        let ghost prev = out@;
        assert(last@[x as int] == g[hi - 1][x as int]);
        if last[x].0 != 0 {
            out.push(
                Draw::Line(x_off + (x as i32) * size, ty, x_off + ((x + 1) as i32) * size, ty),
            );
        }
        assert(out@ =~= top + bottom_cmds(g, x + 1, hi, si, xi, yi));
        x = x + 1;
    }
    out
}
} // verus!
