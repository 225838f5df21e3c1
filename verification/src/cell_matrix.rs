//! The per-tick neighbor-count grid: a dense classification of every
//! coordinate of the grid as live, dead (with at least one live neighbor),
//! or empty, rebuilt from the sparse live-cell population each firing tick.

use vstd::prelude::*;

use crate::CellId;
use crate::Position;

verus! {

/// Classification of one grid coordinate.
///
/// `Live` carries the occupying cell's identity and its live-neighbor count;
/// `Dead` carries a live-neighbor count of at least one; `Empty` stands for a
/// coordinate with no live neighbors at all, which can never be a birth
/// candidate.
#[derive(Clone, Copy, PartialEq, Eq, Structural, Hash, Debug)]
pub enum CellType {
    Live(CellId, u32),
    Dead(u32),
    Empty,
}

/// Construction fails when the caller's population breaks its contract.
#[derive(Clone, Copy, PartialEq, Eq, Structural, Hash, Debug)]
pub enum GridError {
    /// Two live cells claim the same coordinate.
    DuplicatePosition,
    /// A live cell lies outside `[0, width) x [0, height)`.
    OutOfBoundsPosition,
}

/// `p` lies inside a `w` by `h` grid.
pub open spec fn in_bounds(p: Position, w: u32, h: u32) -> bool {
    0 <= p.x < w && 0 <= p.y < h
}

/// Some live cell of `s` occupies coordinate `p`.
pub open spec fn occupies(s: Seq<(CellId, Position)>, p: Position) -> bool {
    exists|i: int| 0 <= i < s.len() && s[i].1 == p
}

/// The identity of a live cell of `s` at `p` (meaningful when positions in
/// `s` are distinct and `p` is occupied).
pub open spec fn occupant(s: Seq<(CellId, Position)>, p: Position) -> CellId {
    s[choose|i: int| 0 <= i < s.len() && s[i].1 == p].0
}

/// 1 when some live cell of `s` sits at offset `(dx, dy)` from `p`, else 0.
/// The coordinate arithmetic is over `int`, so no wraparound can occur: an
/// offset that would leave the grid simply has no occupant.
pub open spec fn occ01(s: Seq<(CellId, Position)>, p: Position, dx: int, dy: int) -> nat {
    if exists|i: int| 0 <= i < s.len() && s[i].1.x == p.x + dx && s[i].1.y == p.y + dy {
        1nat
    } else {
        0nat
    }
}

/// How many of the eight neighboring coordinates of `p` hold a live cell of
/// `s`. Each coordinate contributes at most once, so the count is the number
/// of distinct occupied neighbor coordinates and never exceeds 8.
pub open spec fn live_nbrs(s: Seq<(CellId, Position)>, p: Position) -> nat {
    occ01(s, p, -1, -1) + occ01(s, p, -1, 0) + occ01(s, p, -1, 1) + occ01(s, p, 0, -1) + occ01(
        s,
        p,
        0,
        1,
    ) + occ01(s, p, 1, -1) + occ01(s, p, 1, 0) + occ01(s, p, 1, 1)
}

/// `q` is one of the eight neighbors of `p` (wraparound never applies: this
/// is plain integer adjacency).
pub open spec fn is_neighbor(q: Position, p: Position) -> bool {
    q != p && -1 <= q.x - p.x <= 1 && -1 <= q.y - p.y <= 1
}

/// The classification a finished grid assigns to coordinate `p`, given the
/// live population `s`.
pub open spec fn classify(s: Seq<(CellId, Position)>, p: Position) -> CellType {
    if occupies(s, p) {
        CellType::Live(occupant(s, p), live_nbrs(s, p) as u32)
    } else if live_nbrs(s, p) > 0 {
        CellType::Dead(live_nbrs(s, p) as u32)
    } else {
        CellType::Empty
    }
}

/// The population `s` honors the caller contract: every position in bounds,
/// no coordinate claimed twice.
pub open spec fn valid_cells(s: Seq<(CellId, Position)>, w: u32, h: u32) -> bool {
    (forall|i: int| 0 <= i < s.len() ==> in_bounds(#[trigger] s[i].1, w, h)) && (forall|
        i: int,
        j: int,
    |
        0 <= i < j < s.len() ==> (#[trigger] s[i].1) != (#[trigger] s[j].1))
}

/// The first contract violation construction meets when it processes `s` in
/// order, if any: at each element, out-of-bounds is detected before a
/// duplicate of an earlier coordinate.
pub open spec fn scan_error(s: Seq<(CellId, Position)>, w: u32, h: u32) -> Option<GridError>
    decreases s.len(),
{
    if s.len() == 0 {
        None
    } else if scan_error(s.drop_last(), w, h) is Some {
        scan_error(s.drop_last(), w, h)
    } else if !in_bounds(s.last().1, w, h) {
        Some(GridError::OutOfBoundsPosition)
    } else if occupies(s.drop_last(), s.last().1) {
        Some(GridError::DuplicatePosition)
    } else {
        None
    }
}

/// A coordinate's classification after one more live cell is accounted for
/// as one of its neighbors: the live-neighbor count rises by one, and a
/// coordinate with no live neighbors so far becomes a birth candidate.
pub open spec fn bump(c: CellType) -> CellType {
    match c {
        CellType::Live(id, nc) => CellType::Live(id, (nc + 1) as u32),
        CellType::Dead(nc) => CellType::Dead((nc + 1) as u32),
        CellType::Empty => CellType::Dead(1),
    }
}

/// The linear index of `p` in the row-major array of a grid `w` wide.
pub open spec fn lin(p: Position, w: u32) -> int {
    p.x + w * p.y
}

/// The coordinate stored at linear index `i` of a grid `w` wide.
pub open spec fn pos_of(i: int, w: u32) -> Position {
    Position { x: (i % (w as int)) as i32, y: (i / (w as int)) as i32 }
}

/// The full classification array that the population `s` determines on a
/// `w` by `h` grid, in row-major order (x fastest-varying).
pub open spec fn class_seq(s: Seq<(CellId, Position)>, w: u32, h: u32) -> Seq<CellType> {
    Seq::new((w * h) as nat, |i: int| classify(s, pos_of(i, w)))
}

/// The live enumeration of a classification array, in array (row-major)
/// order: identity and live-neighbor count of every live coordinate.
pub open spec fn live_of(s: Seq<CellType>) -> Seq<(CellId, u32)>
    decreases s.len(),
{
    if s.len() == 0 {
        Seq::empty()
    } else {
        live_of(s.drop_last()) + match s.last() {
            CellType::Live(id, nc) => seq![(id, nc)],
            _ => Seq::empty(),
        }
    }
}

/// The dead enumeration of a classification array of width `w`, in array
/// (row-major) order: position and live-neighbor count of every dead
/// coordinate. Empty coordinates are never enumerated: with no live
/// neighbor they can never satisfy the birth condition.
pub open spec fn dead_of(s: Seq<CellType>, w: u32) -> Seq<(Position, u32)>
    decreases s.len(),
{
    if s.len() == 0 {
        Seq::empty()
    } else {
        dead_of(s.drop_last(), w) + match s.last() {
            CellType::Dead(nc) => seq![(pos_of(s.len() - 1, w), nc)],
            _ => Seq::empty(),
        }
    }
}

/// How many coordinates of a classification array are empty.
pub open spec fn empty_count(s: Seq<CellType>) -> nat
    decreases s.len(),
{
    if s.len() == 0 {
        0nat
    } else {
        empty_count(s.drop_last()) + (if s.last() is Empty {
            1nat
        } else {
            0nat
        })
    }
}

/// Enumeration completeness: every array entry is counted by exactly one of
/// the live enumeration, the dead enumeration, and the implicit empty set,
/// so the three sizes sum to the array's size.
pub proof fn lemma_enumeration_complete(s: Seq<CellType>, w: u32)
    ensures
        live_of(s).len() + dead_of(s, w).len() + empty_count(s) == s.len(),
    decreases s.len(),
{
    if s.len() > 0 {
        lemma_enumeration_complete(s.drop_last(), w);
    }
}

/// The finished array classifies every coordinate exactly as the
/// population `s` determines.
#[verifier::opaque]
pub open spec fn reflects(g: CellMatrix, s: Seq<(CellId, Position)>) -> bool {
    forall|p: Position|
        in_bounds(p, g.spec_width(), g.spec_height()) ==> g.cell_at(p) == classify(s, p)
}

proof fn lemma_index_bound(x: int, y: int, w: int, h: int)
    by (nonlinear_arith)
    requires
        0 <= x < w,
        0 <= y < h,
    ensures
        0 <= x + w * y < w * h,
        w * y <= x + w * y,
{
}

proof fn lemma_index_inj(x1: int, y1: int, x2: int, y2: int, w: int)
    by (nonlinear_arith)
    requires
        0 <= x1 < w,
        0 <= x2 < w,
        0 <= y1,
        0 <= y2,
        x1 + w * y1 == x2 + w * y2,
    ensures
        x1 == x2 && y1 == y2,
{
}

proof fn lemma_index_split(i: int, w: int, h: int)
    by (nonlinear_arith)
    requires
        0 <= i < w * h,
        1 <= w,
        1 <= h,
    ensures
        0 <= i % w < w,
        0 <= i / w < h,
        (i % w) + w * (i / w) == i,
{
}

/// The row-major index of an in-bounds coordinate is an array index, and
/// names that coordinate back.
pub proof fn lemma_lin_pos_of(p: Position, w: u32, h: u32)
    requires
        in_bounds(p, w, h),
    ensures
        0 <= lin(p, w) < w * h,
        pos_of(lin(p, w), w) == p,
{
    lemma_index_bound(p.x as int, p.y as int, w as int, h as int);
    lemma_index_split(lin(p, w), w as int, h as int);
    lemma_index_inj(
        p.x as int,
        p.y as int,
        lin(p, w) % (w as int),
        lin(p, w) / (w as int),
        w as int,
    );
}

/// Each linear index of the array names an in-bounds coordinate whose
/// row-major index it is.
pub proof fn lemma_pos_of_lin(i: int, w: u32, h: u32)
    requires
        0 <= i < w * h,
        1 <= w,
        1 <= h,
        w * h <= i32::MAX,
    ensures
        in_bounds(pos_of(i, w), w, h),
        lin(pos_of(i, w), w) == i,
{
    assert(w <= w * h && h <= w * h) by (nonlinear_arith)
        requires
            1 <= w,
            1 <= h,
    ;
    lemma_index_split(i, w as int, h as int);
}

/// A violation found in a prefix of `s` is the violation for all of `s`.
proof fn lemma_scan_error_extends(s: Seq<(CellId, Position)>, w: u32, h: u32, m: int)
    requires
        0 <= m <= s.len(),
        scan_error(s.subrange(0, m), w, h) is Some,
    ensures
        scan_error(s, w, h) == scan_error(s.subrange(0, m), w, h),
    decreases s.len() - m,
{
    if m < s.len() {
        assert(s.subrange(0, m + 1).drop_last() =~= s.subrange(0, m));
        assert(scan_error(s.subrange(0, m + 1), w, h) == scan_error(s.subrange(0, m), w, h));
        lemma_scan_error_extends(s, w, h, m + 1);
    } else {
        assert(s.subrange(0, m) =~= s);
    }
}

/// Construction scans `s` without meeting a violation exactly when `s`
/// honors the caller contract.
pub proof fn lemma_scan_error_none_iff_valid(s: Seq<(CellId, Position)>, w: u32, h: u32)
    ensures
        scan_error(s, w, h) is None <==> valid_cells(s, w, h),
    decreases s.len(),
{
    if s.len() > 0 {
        let t = s.drop_last();
        lemma_scan_error_none_iff_valid(t, w, h);
        assert(forall|i: int| 0 <= i < t.len() ==> t[i] == s[i]);
        if scan_error(s, w, h) is None {
            assert(forall|i: int| 0 <= i < s.len() ==> in_bounds(#[trigger] s[i].1, w, h));
            assert(forall|i: int, j: int|
                0 <= i < j < s.len() ==> (#[trigger] s[i].1) != (#[trigger] s[j].1)) by {
                assert(forall|i: int|
                    0 <= i < s.len() - 1 ==> (#[trigger] s[i].1) != s[s.len() - 1].1);
            }
        }
        if valid_cells(s, w, h) {
            assert(valid_cells(t, w, h));
            assert(!occupies(t, s.last().1));
        }
    }
}

proof fn lemma_occ01_push(
    s: Seq<(CellId, Position)>,
    c: (CellId, Position),
    p: Position,
    dx: int,
    dy: int,
)
    ensures
        occ01(s.push(c), p, dx, dy) == if c.1.x == p.x + dx && c.1.y == p.y + dy {
            1nat
        } else {
            occ01(s, p, dx, dy)
        },
{
    let t = s.push(c);
    assert(t[s.len() as int] == c);
    assert(forall|i: int| 0 <= i < s.len() ==> t[i] == s[i]);
    if c.1.x == p.x + dx && c.1.y == p.y + dy {
        assert(occ01(t, p, dx, dy) == 1nat);
    } else {
        if occ01(s, p, dx, dy) == 1nat {
            let i = choose|i: int|
                0 <= i < s.len() && s[i].1.x == p.x + dx && s[i].1.y == p.y + dy;
            assert(t[i].1.x == p.x + dx && t[i].1.y == p.y + dy);
        } else {
            assert(forall|i: int|
                0 <= i < t.len() ==> !(t[i].1.x == p.x + dx && #[trigger] t[i].1.y == p.y + dy));
        }
    }
}

/// Appending one fresh live cell to the population changes the
/// classification of exactly its own coordinate (which becomes live,
/// keeping its count) and its neighbors (whose counts rise by one).
proof fn lemma_classify_push(s: Seq<(CellId, Position)>, c: (CellId, Position), p: Position)
    requires
        !occupies(s, c.1),
        forall|i: int, j: int| 0 <= i < j < s.len() ==> (#[trigger] s[i].1) != (#[trigger] s[j].1),
    ensures
        classify(s.push(c), p) == if p == c.1 {
            CellType::Live(c.0, live_nbrs(s, p) as u32)
        } else if is_neighbor(c.1, p) {
            bump(classify(s, p))
        } else {
            classify(s, p)
        },
{
    let t = s.push(c);
    assert(t[s.len() as int] == c);
    assert(forall|i: int| 0 <= i < s.len() ==> t[i] == s[i]);

    lemma_occ01_push(s, c, p, -1, -1);
    lemma_occ01_push(s, c, p, -1, 0);
    lemma_occ01_push(s, c, p, -1, 1);
    lemma_occ01_push(s, c, p, 0, -1);
    lemma_occ01_push(s, c, p, 0, 1);
    lemma_occ01_push(s, c, p, 1, -1);
    lemma_occ01_push(s, c, p, 1, 0);
    lemma_occ01_push(s, c, p, 1, 1);

    if is_neighbor(c.1, p) {
        assert(live_nbrs(t, p) == live_nbrs(s, p) + 1) by {
            assert(!occupies(s, c.1));
            assert(forall|dx: int, dy: int|
                (c.1.x == p.x + dx && c.1.y == p.y + dy) ==> #[trigger] occ01(s, p, dx, dy)
                    == 0nat) by {
                assert(forall|i: int| 0 <= i < s.len() ==> (#[trigger] s[i].1) != c.1);
            }
        }
    } else if p != c.1 {
        assert(live_nbrs(t, p) == live_nbrs(s, p));
    } else {
        assert(live_nbrs(t, p) == live_nbrs(s, p));
    }

    if p == c.1 {
        assert(occupies(t, p));
        let i = choose|i: int| 0 <= i < t.len() && t[i].1 == p;
        assert(forall|j: int| 0 <= j < s.len() ==> (#[trigger] s[j].1) != p);
        assert(i == s.len());
        assert(occupant(t, p) == c.0);
    } else {
        if occupies(s, p) {
            assert(occupies(t, p));
            let i0 = choose|i: int| 0 <= i < s.len() && s[i].1 == p;
            let i = choose|i: int| 0 <= i < t.len() && t[i].1 == p;
            assert(i < s.len());
            assert(i == i0 || s[i].1 != s[i0].1 || i < i0 || i0 < i);
            if i != i0 {
                if i < i0 {
                    assert(s[i].1 != s[i0].1);
                } else {
                    assert(s[i0].1 != s[i].1);
                }
                assert(false);
            }
            assert(occupant(t, p) == occupant(s, p));
        } else {
            assert(!occupies(t, p)) by {
                assert(forall|i: int| 0 <= i < t.len() ==> (#[trigger] t[i].1) != p);
            }
        }
    }
}

/// What one construction step learns about the scan: going on is safe when
/// the element at `k` is in bounds and fresh, and either violation at `k`
/// settles the scan's outcome for all of `s`.
proof fn lemma_scan_step(s: Seq<(CellId, Position)>, k: int, w: u32, h: u32)
    requires
        0 <= k < s.len(),
        scan_error(s.subrange(0, k), w, h) is None,
    ensures
        in_bounds(s[k].1, w, h) && !occupies(s.subrange(0, k), s[k].1) ==> scan_error(
            s.subrange(0, k + 1),
            w,
            h,
        ) is None,
        !in_bounds(s[k].1, w, h) ==> scan_error(s, w, h) == Some(GridError::OutOfBoundsPosition),
        in_bounds(s[k].1, w, h) && occupies(s.subrange(0, k), s[k].1) ==> scan_error(s, w, h)
            == Some(GridError::DuplicatePosition),
{
    assert(s.subrange(0, k + 1).drop_last() =~= s.subrange(0, k));
    assert(s.subrange(0, k + 1).last() == s[k]);
    if !in_bounds(s[k].1, w, h) {
        lemma_scan_error_extends(s, w, h, k + 1);
    } else if occupies(s.subrange(0, k), s[k].1) {
        lemma_scan_error_extends(s, w, h, k + 1);
    }
}

/// Writing one array entry changes that coordinate's classification and no
/// other.
proof fn lemma_update_one(
    before: CellMatrix,
    after: CellMatrix,
    target: Position,
    v: CellType,
    w: u32,
    h: u32,
)
    requires
        before.wf(),
        before.spec_width() == w,
        before.spec_height() == h,
        after.spec_width() == w,
        after.spec_height() == h,
        in_bounds(target, w, h),
        after@ == before@.update(lin(target, w), v),
    ensures
        after.wf(),
        after.cell_at(target) == v,
        forall|p: Position|
            in_bounds(p, w, h) && p != target ==> after.cell_at(p) == before.cell_at(p),
{
    lemma_index_bound(target.x as int, target.y as int, w as int, h as int);
    assert forall|p: Position| in_bounds(p, w, h) && p != target implies after.cell_at(p)
        == before.cell_at(p) by {
        lemma_index_bound(p.x as int, p.y as int, w as int, h as int);
        if lin(p, w) == lin(target, w) {
            lemma_index_inj(p.x as int, p.y as int, target.x as int, target.y as int, w as int);
        }
    }
}

/// An array that reflects one fresh cell's own-slot write and neighbor
/// increments on top of the classification for `prefix` is classified
/// exactly by `prefix` extended with that cell.
proof fn lemma_push_classification(
    prefix: Seq<(CellId, Position)>,
    c: (CellId, Position),
    w: u32,
    h: u32,
    g: CellMatrix,
)
    requires
        g.spec_width() == w,
        g.spec_height() == h,
        valid_cells(prefix, w, h),
        in_bounds(c.1, w, h),
        !occupies(prefix, c.1),
        g.cell_at(c.1) == CellType::Live(c.0, live_nbrs(prefix, c.1) as u32),
        forall|p: Position|
            in_bounds(p, w, h) && p != c.1 ==> g.cell_at(p) == (if is_neighbor(p, c.1) {
                bump(classify(prefix, p))
            } else {
                classify(prefix, p)
            }),
    ensures
        forall|p: Position| in_bounds(p, w, h) ==> g.cell_at(p) == classify(prefix.push(c), p),
{
    assert forall|p: Position| in_bounds(p, w, h) implies g.cell_at(p) == classify(
        prefix.push(c),
        p,
    ) by {
        lemma_classify_push(prefix, c, p);
        if p != c.1 {
            assert(is_neighbor(p, c.1) <==> is_neighbor(c.1, p));
        }
    }
}

/// Every element of the live enumeration reports a live entry of the
/// array, with its identity and count.
pub proof fn lemma_live_of_entries(s: Seq<CellType>)
    ensures
        forall|k: int|
            0 <= k < live_of(s).len() ==> exists|i: int|
                0 <= i < s.len() && s[i] == CellType::Live(
                    #[trigger] live_of(s)[k].0,
                    live_of(s)[k].1,
                ),
    decreases s.len(),
{
    if s.len() > 0 {
        lemma_live_of_entries(s.drop_last());
        assert forall|k: int| 0 <= k < live_of(s).len() implies exists|i: int|
            0 <= i < s.len() && s[i] == CellType::Live(
                #[trigger] live_of(s)[k].0,
                live_of(s)[k].1,
            ) by {
            if k < live_of(s.drop_last()).len() {
                let i = choose|i: int|
                    0 <= i < s.drop_last().len() && s.drop_last()[i] == CellType::Live(
                        live_of(s.drop_last())[k].0,
                        live_of(s.drop_last())[k].1,
                    );
                assert(s[i] == s.drop_last()[i]);
            } else {
                assert(s[s.len() - 1] == s.last());
            }
        }
    }
}

/// Every element of the dead enumeration reports a dead entry of the
/// array, with its count.
pub proof fn lemma_dead_of_entries(s: Seq<CellType>, w: u32)
    ensures
        forall|k: int|
            0 <= k < dead_of(s, w).len() ==> exists|i: int|
                0 <= i < s.len() && s[i] == CellType::Dead(#[trigger] dead_of(s, w)[k].1),
    decreases s.len(),
{
    if s.len() > 0 {
        lemma_dead_of_entries(s.drop_last(), w);
        assert forall|k: int| 0 <= k < dead_of(s, w).len() implies exists|i: int|
            0 <= i < s.len() && s[i] == CellType::Dead(#[trigger] dead_of(s, w)[k].1) by {
            if k < dead_of(s.drop_last(), w).len() {
                let i = choose|i: int|
                    0 <= i < s.drop_last().len() && s.drop_last()[i] == CellType::Dead(
                        dead_of(s.drop_last(), w)[k].1,
                    );
                assert(s[i] == s.drop_last()[i]);
            } else {
                assert(s[s.len() - 1] == s.last());
            }
        }
    }
}

/// An array with no live entry enumerates no live cells, and one with no
/// dead entry enumerates no dead cells.
pub proof fn lemma_enumerations_empty(s: Seq<CellType>, w: u32)
    ensures
        (forall|i: int| 0 <= i < s.len() ==> !((#[trigger] s[i]) is Live)) ==> live_of(s)
            == Seq::<(CellId, u32)>::empty(),
        (forall|i: int| 0 <= i < s.len() ==> !((#[trigger] s[i]) is Dead)) ==> dead_of(s, w)
            == Seq::<(Position, u32)>::empty(),
    decreases s.len(),
{
    if s.len() > 0 {
        lemma_enumerations_empty(s.drop_last(), w);
        assert(forall|i: int| 0 <= i < s.len() - 1 ==> s.drop_last()[i] == s[i]);
        if forall|i: int| 0 <= i < s.len() ==> !((#[trigger] s[i]) is Live) {
            assert(!(s.last() is Live));
            assert(live_of(s) =~= Seq::<(CellId, u32)>::empty());
        }
        if forall|i: int| 0 <= i < s.len() ==> !((#[trigger] s[i]) is Dead) {
            assert(!(s.last() is Dead));
            assert(dead_of(s, w) =~= Seq::<(Position, u32)>::empty());
        }
    }
}

/// An array whose only live entry sits at index `k` enumerates exactly
/// that one live cell.
pub proof fn lemma_live_of_single(s: Seq<CellType>, k: int, id: CellId, nc: u32)
    requires
        0 <= k < s.len(),
        s[k] == CellType::Live(id, nc),
        forall|j: int| 0 <= j < s.len() && j != k ==> !((#[trigger] s[j]) is Live),
    ensures
        live_of(s) == seq![(id, nc)],
    decreases s.len(),
{
    assert(forall|i: int| 0 <= i < s.len() - 1 ==> s.drop_last()[i] == s[i]);
    if k == s.len() - 1 {
        lemma_enumerations_empty(s.drop_last(), 1);
        assert(live_of(s) =~= seq![(id, nc)]);
    } else {
        lemma_live_of_single(s.drop_last(), k, id, nc);
        assert(!(s.last() is Live));
        assert(live_of(s) =~= seq![(id, nc)]);
    }
}

proof fn lemma_occ01_membership(
    s1: Seq<(CellId, Position)>,
    s2: Seq<(CellId, Position)>,
    p: Position,
    dx: int,
    dy: int,
)
    requires
        forall|c: (CellId, Position)| s1.contains(c) <==> s2.contains(c),
    ensures
        occ01(s1, p, dx, dy) == occ01(s2, p, dx, dy),
{
    if occ01(s1, p, dx, dy) == 1nat {
        let i = choose|i: int| 0 <= i < s1.len() && s1[i].1.x == p.x + dx && s1[i].1.y == p.y + dy;
        assert(s1.contains(s1[i]));
        assert(s2.contains(s1[i]));
        let j = choose|j: int| 0 <= j < s2.len() && s2[j] == s1[i];
        assert(s2[j].1.x == p.x + dx && s2[j].1.y == p.y + dy);
    }
    if occ01(s2, p, dx, dy) == 1nat {
        let i = choose|i: int| 0 <= i < s2.len() && s2[i].1.x == p.x + dx && s2[i].1.y == p.y + dy;
        assert(s2.contains(s2[i]));
        assert(s1.contains(s2[i]));
        let j = choose|j: int| 0 <= j < s1.len() && s1[j] == s2[i];
        assert(s1[j].1.x == p.x + dx && s1[j].1.y == p.y + dy);
    }
}

/// Classification depends only on which cells the population holds, not on
/// their order, as long as positions are distinct in both listings.
proof fn lemma_classify_membership(
    s1: Seq<(CellId, Position)>,
    s2: Seq<(CellId, Position)>,
    p: Position,
)
    requires
        forall|c: (CellId, Position)| s1.contains(c) <==> s2.contains(c),
        forall|i: int, j: int| 0 <= i < j < s1.len() ==> (#[trigger] s1[i].1) != (#[trigger] s1[j].1),
        forall|i: int, j: int| 0 <= i < j < s2.len() ==> (#[trigger] s2[i].1) != (#[trigger] s2[j].1),
    ensures
        classify(s1, p) == classify(s2, p),
{
    lemma_occ01_membership(s1, s2, p, -1, -1);
    lemma_occ01_membership(s1, s2, p, -1, 0);
    lemma_occ01_membership(s1, s2, p, -1, 1);
    lemma_occ01_membership(s1, s2, p, 0, -1);
    lemma_occ01_membership(s1, s2, p, 0, 1);
    lemma_occ01_membership(s1, s2, p, 1, -1);
    lemma_occ01_membership(s1, s2, p, 1, 0);
    lemma_occ01_membership(s1, s2, p, 1, 1);
    if occupies(s1, p) {
        let i1 = choose|i: int| 0 <= i < s1.len() && s1[i].1 == p;
        assert(s1.contains(s1[i1]));
        assert(s2.contains(s1[i1]));
        let j = choose|j: int| 0 <= j < s2.len() && s2[j] == s1[i1];
        assert(occupies(s2, p));
        let i2 = choose|i: int| 0 <= i < s2.len() && s2[i].1 == p;
        if i2 < j {
            assert(s2[i2].1 != s2[j].1);
        } else if j < i2 {
            assert(s2[j].1 != s2[i2].1);
        }
        assert(occupant(s2, p) == s1[i1].0);
        assert(occupant(s1, p) == s1[i1].0);
    } else {
        if occupies(s2, p) {
            let i2 = choose|i: int| 0 <= i < s2.len() && s2[i].1 == p;
            assert(s2.contains(s2[i2]));
            assert(s1.contains(s2[i2]));
            let j = choose|j: int| 0 <= j < s1.len() && s1[j] == s2[i2];
            assert(s1[j].1 == p);
            assert(false);
        }
    }
}

/// Determinism of construction: two populations that list the same cells,
/// possibly in different orders, and both honor the caller contract,
/// determine identical classification arrays.
pub proof fn lemma_construction_deterministic(
    s1: Seq<(CellId, Position)>,
    s2: Seq<(CellId, Position)>,
    w: u32,
    h: u32,
)
    requires
        valid_cells(s1, w, h),
        valid_cells(s2, w, h),
        s1.to_multiset() == s2.to_multiset(),
    ensures
        class_seq(s1, w, h) == class_seq(s2, w, h),
{
    s1.to_multiset_ensures();
    s2.to_multiset_ensures();
    assert forall|c: (CellId, Position)| s1.contains(c) <==> s2.contains(c) by {
        assert(s1.to_multiset().count(c) == s2.to_multiset().count(c));
        if s1.contains(c) {
            assert(s1.to_multiset().count(c) > 0);
            assert(s2.contains(c));
        }
        if s2.contains(c) {
            assert(s2.to_multiset().count(c) > 0);
            assert(s1.contains(c));
        }
    }
    assert forall|p: Position| #[trigger] classify(s1, p) == classify(s2, p) by {
        lemma_classify_membership(s1, s2, p);
    }
    assert(class_seq(s1, w, h) =~= class_seq(s2, w, h));
}

/// Boundary correctness: a single live cell in the corner of an otherwise
/// empty grid of at least 2 by 2 contributes to exactly its three
/// in-bounds neighbors; no out-of-bounds coordinate wraps around, and
/// every other coordinate stays empty.
pub proof fn lemma_corner_isolation(id: CellId, w: u32, h: u32)
    requires
        2 <= w,
        2 <= h,
        w * h <= i32::MAX,
    ensures
        ({
            let s = seq![(id, Position { x: 0, y: 0 })];
            &&& classify(s, Position { x: 0, y: 0 }) == CellType::Live(id, 0)
            &&& classify(s, Position { x: 1, y: 0 }) == CellType::Dead(1)
            &&& classify(s, Position { x: 0, y: 1 }) == CellType::Dead(1)
            &&& classify(s, Position { x: 1, y: 1 }) == CellType::Dead(1)
            &&& forall|q: Position|
                in_bounds(q, w, h) && !(q.x <= 1 && q.y <= 1) ==> #[trigger] classify(s, q)
                    == CellType::Empty
        }),
{
    let s = seq![(id, Position { x: 0, y: 0 })];
    assert(s[0] == (id, Position { x: 0, y: 0 }));
    assert(s.len() == 1);
    assert(occupies(s, Position { x: 0, y: 0 }));
    assert(occupant(s, Position { x: 0, y: 0 }) == id);
    assert forall|q: Position|
        in_bounds(q, w, h) && !(q.x <= 1 && q.y <= 1) implies #[trigger] classify(s, q)
        == CellType::Empty by {
        assert(!occupies(s, q));
        assert(live_nbrs(s, q) == 0);
    }
}

/// The dense per-tick snapshot: a `width` by `height` classification array,
/// immutable after construction and discarded at the end of its tick.
pub struct CellMatrix {
    width: u32,
    height: u32,
    cells: Vec<CellType>,
}

impl View for CellMatrix {
    type V = Seq<CellType>;

    closed spec fn view(&self) -> Seq<CellType> {
        self.cells@
    }
}

impl CellMatrix {
    pub closed spec fn spec_width(self) -> u32 {
        self.width
    }

    pub closed spec fn spec_height(self) -> u32 {
        self.height
    }

    /// Positive dimensions, every linear index fits in an `i32`, and the
    /// array holds exactly one entry per coordinate.
    pub open spec fn wf(self) -> bool {
        1 <= self.spec_width() && 1 <= self.spec_height() && self.spec_width()
            * self.spec_height() <= i32::MAX && self@.len() == self.spec_width()
            * self.spec_height()
    }

    /// The classification stored for coordinate `p`.
    pub open spec fn cell_at(self, p: Position) -> CellType {
        self@[lin(p, self.spec_width())]
    }

    pub fn width(&self) -> (r: u32)
        ensures
            r == self.spec_width(),
    {
        self.width
    }

    pub fn height(&self) -> (r: u32)
        ensures
            r == self.spec_height(),
    {
        self.height
    }

    /// Builds the neighbor-count grid for one tick from the live population.
    ///
    /// On success every coordinate is classified exactly as the population
    /// determines: live cells keep their identity and carry their
    /// live-neighbor count, unoccupied coordinates with at least one live
    /// neighbor are dead (birth candidates), the rest are empty. A
    /// population that breaks the caller contract is rejected with the first
    /// violation met in input order.
    pub fn new(width: u32, height: u32, cells: &Vec<(CellId, Position)>) -> (r: Result<
        CellMatrix,
        GridError,
    >)
        requires
            1 <= width,
            1 <= height,
            width * height <= i32::MAX,
        ensures
            match r {
                Ok(g) => {
                    &&& scan_error(cells@, width, height) is None
                    &&& valid_cells(cells@, width, height)
                    &&& g.wf()
                    &&& g.spec_width() == width
                    &&& g.spec_height() == height
                    &&& forall|p: Position|
                        in_bounds(p, width, height) ==> g.cell_at(p) == classify(cells@, p)
                    &&& g@ == class_seq(cells@, width, height)
                },
                Err(e) => {
                    &&& scan_error(cells@, width, height) == Some(e)
                    &&& !valid_cells(cells@, width, height)
                },
            },
    {
        proof {
            lemma_index_bound((width - 1) as int, (height - 1) as int, width as int, height as int);
        }
        let n: usize = (width as usize) * (height as usize);
        let mut arr: Vec<CellType> = Vec::new();
        while arr.len() < n
            invariant
                arr@.len() <= n,
                forall|k: int| 0 <= k < arr@.len() ==> arr@[k] == CellType::Empty,
            decreases n - arr@.len(),
        {
            arr.push(CellType::Empty);
        }
        let mut g = CellMatrix { width, height, cells: arr };
        match g.push_all(cells) {
            Ok(()) => {
                proof {
                    lemma_scan_error_none_iff_valid(cells@, width, height);
                    assert(g@ =~= class_seq(cells@, width, height)) by {
                        assert forall|i: int| 0 <= i < g@.len() implies g@[i] == classify(
                            cells@,
                            pos_of(i, width),
                        ) by {
                            lemma_index_split(i, width as int, height as int);
                            let p = pos_of(i, width);
                            assert(in_bounds(p, width, height));
                            assert(lin(p, width) == i);
                        }
                    }
                }
                Ok(g)
            },
            Err(e) => {
                proof {
                    lemma_scan_error_none_iff_valid(cells@, width, height);
                }
                Err(e)
            },
        }
    }

    /// Enumerates the live cells in a single row-major traversal of the
    /// array (x fastest-varying): identity and live-neighbor count of every
    /// live coordinate.
    pub fn live_cells(&self) -> (r: Vec<(CellId, u32)>)
        ensures
            r@ == live_of(self@),
    {
        let mut r: Vec<(CellId, u32)> = Vec::new();
        let n = self.cells.len();
        for i in 0..n
            invariant
                n == self@.len(),
                r@ == live_of(self@.subrange(0, i as int)),
        {
            match self.cells[i] {
                CellType::Live(id, nc) => {
                    r.push((id, nc));
                },
                _ => {},
            }
            proof {
                assert(self@.subrange(0, i + 1).drop_last() =~= self@.subrange(0, i as int));
                assert(self@.subrange(0, i + 1).last() == self@[i as int]);
            }
        }
        proof {
            assert(self@.subrange(0, self@.len() as int) =~= self@);
        }
        r
    }

    /// Enumerates the dead cells in the same row-major traversal: position
    /// and live-neighbor count of every unoccupied coordinate that has at
    /// least one live neighbor. Empty coordinates are skipped.
    pub fn dead_cells(&self) -> (r: Vec<(Position, u32)>)
        requires
            self.wf(),
        ensures
            r@ == dead_of(self@, self.spec_width()),
    {
        let w = self.width;
        let h = self.height;
        proof {
            assert(w <= w * h && h <= w * h) by (nonlinear_arith)
                requires
                    1 <= w,
                    1 <= h,
            ;
        }
        let mut r: Vec<(Position, u32)> = Vec::new();
        let n = self.cells.len();
        for i in 0..n
            invariant
                n == self@.len(),
                self.wf(),
                w == self.spec_width(),
                h == self.spec_height(),
                w <= i32::MAX,
                h <= i32::MAX,
                r@ == dead_of(self@.subrange(0, i as int), w),
        {
            match self.cells[i] {
                CellType::Dead(nc) => {
                    proof {
                        lemma_index_split(i as int, w as int, h as int);
                    }
                    let xi: usize = i % (w as usize);
                    let yi: usize = i / (w as usize);
                    let p = Position { x: xi as i32, y: yi as i32 };
                    proof {
                        assert(p == pos_of(i as int, w));
                    }
                    r.push((p, nc));
                },
                _ => {},
            }
            proof {
                assert(self@.subrange(0, i + 1).drop_last() =~= self@.subrange(0, i as int));
                assert(self@.subrange(0, i + 1).last() == self@[i as int]);
            }
        }
        proof {
            assert(self@.subrange(0, self@.len() as int) =~= self@);
        }
        r
    }

    /// Enumeration completeness for this grid: the live enumeration, the
    /// dead enumeration and the empty coordinates partition the array, so
    /// their sizes sum to width times height.
    pub proof fn lemma_enumerations_cover_grid(self)
        requires
            self.wf(),
        ensures
            live_of(self@).len() + dead_of(self@, self.spec_width()).len() + empty_count(self@)
                == self.spec_width() * self.spec_height(),
    {
        lemma_enumeration_complete(self@, self.spec_width());
    }

    /// Folds every live cell of `cells`, in input order, into the array:
    /// marks its own coordinate live (keeping the neighbor count gathered so
    /// far) and raises the count of each of its grid-bounded neighbors by
    /// one. Stops at the first caller-contract violation.
    #[verifier::rlimit(100)]
    fn push_all(&mut self, cells: &Vec<(CellId, Position)>) -> (r: Result<(), GridError>)
        requires
            old(self).wf(),
            forall|k: int| 0 <= k < old(self)@.len() ==> old(self)@[k] == CellType::Empty,
        ensures
            final(self).spec_width() == old(self).spec_width(),
            final(self).spec_height() == old(self).spec_height(),
            final(self).wf(),
            match r {
                Ok(()) => {
                    &&& scan_error(cells@, old(self).spec_width(), old(self).spec_height()) is None
                    &&& forall|p: Position|
                        in_bounds(p, old(self).spec_width(), old(self).spec_height())
                            ==> final(self).cell_at(p) == classify(cells@, p)
                },
                Err(e) => scan_error(cells@, old(self).spec_width(), old(self).spec_height())
                    == Some(e),
            },
    {
        let w = self.width;
        let h = self.height;
        proof {
            assert(w <= w * h && h <= w * h) by (nonlinear_arith)
                requires
                    1 <= w,
                    1 <= h,
            ;
            assert(reflects(*self, cells@.subrange(0, 0))) by {
                reveal(reflects);
                assert forall|p: Position| in_bounds(p, w, h) implies self.cell_at(p) == classify(
                    cells@.subrange(0, 0),
                    p,
                ) by {
                    lemma_index_bound(p.x as int, p.y as int, w as int, h as int);
                }
            }
        }
        for k in 0..cells.len()
            invariant
                self.spec_width() == w,
                self.spec_height() == h,
                w == old(self).spec_width(),
                h == old(self).spec_height(),
                self.wf(),
                scan_error(cells@.subrange(0, k as int), w, h) is None,
                reflects(*self, cells@.subrange(0, k as int)),
        {
            let (id, pos) = cells[k];
            let ghost prefix = cells@.subrange(0, k as int);
            proof {
                lemma_scan_error_none_iff_valid(prefix, w, h);
                lemma_scan_step(cells@, k as int, w, h);
            }
            match self.push_one(id, pos, Ghost(prefix)) {
                Ok(()) => {
                    proof {
                        assert(cells@.subrange(0, k + 1) =~= prefix.push((id, pos)));
                    }
                },
                Err(e) => {
                    return Err(e);
                },
            }
        }
        proof {
            assert(cells@.subrange(0, cells@.len() as int) =~= cells@);
            reveal(reflects);
        }
        Ok(())
    }

    /// Folds one live cell into the array: marks its own coordinate live
    /// (keeping the neighbor count gathered so far) and raises each
    /// grid-bounded neighbor's count by one. Reports which contract
    /// violation the cell represents, if any.
    #[verifier::rlimit(100)]
    fn push_one(
        &mut self,
        id: CellId,
        pos: Position,
        Ghost(prefix): Ghost<Seq<(CellId, Position)>>,
    ) -> (r: Result<(), GridError>)
        requires
            old(self).wf(),
            valid_cells(prefix, old(self).spec_width(), old(self).spec_height()),
            reflects(*old(self), prefix),
        ensures
            final(self).spec_width() == old(self).spec_width(),
            final(self).spec_height() == old(self).spec_height(),
            final(self).wf(),
            match r {
                Ok(()) => {
                    &&& in_bounds(pos, old(self).spec_width(), old(self).spec_height())
                    &&& !occupies(prefix, pos)
                    &&& reflects(*final(self), prefix.push((id, pos)))
                },
                Err(e) => {
                    &&& (e == GridError::OutOfBoundsPosition <==> !in_bounds(
                        pos,
                        old(self).spec_width(),
                        old(self).spec_height(),
                    ))
                    &&& (e == GridError::DuplicatePosition <==> in_bounds(
                        pos,
                        old(self).spec_width(),
                        old(self).spec_height(),
                    ) && occupies(prefix, pos))
                },
            },
    {
        let w = self.width;
        let h = self.height;
        proof {
            reveal(reflects);
            assert(w <= w * h && h <= w * h) by (nonlinear_arith)
                requires
                    1 <= w,
                    1 <= h,
            ;
        }
        if !(pos.x >= 0 && pos.y >= 0 && (pos.x as i64) < (w as i64) && (pos.y as i64) < (h
            as i64)) {
            return Err(GridError::OutOfBoundsPosition);
        }
        proof {
            lemma_index_bound(pos.x as int, pos.y as int, w as int, h as int);
        }
        let idx: usize = (pos.x as usize) + (w as usize) * (pos.y as usize);
        let ghost entry = *self;
        let own = self.cells[idx];
        proof {
            assert(idx as int == lin(pos, w));
            assert(own == self.cell_at(pos));
            assert(self.cell_at(pos) == classify(prefix, pos));
        }
        let newv = match own {
            CellType::Live(_, _) => {
                proof {
                    assert(occupies(prefix, pos));
                }
                return Err(GridError::DuplicatePosition);
            },
            CellType::Dead(nc) => CellType::Live(id, nc),
            CellType::Empty => CellType::Live(id, 0),
        };
        self.cells[idx] = newv;
        proof {
            assert(!occupies(prefix, pos));
            assert(self.cells@ == entry.cells@.update(idx as int, newv));
            assert(newv == CellType::Live(id, live_nbrs(prefix, pos) as u32));
            lemma_update_one(entry, *self, pos, newv, w, h);
            assert forall|p: Position| in_bounds(p, w, h) && p != pos implies self.cell_at(p)
                == classify(prefix, p) by {
                assert(self.cell_at(p) == entry.cell_at(p));
                assert(entry.cell_at(p) == classify(prefix, p));
            }
        }
        self.raise_neighbour_counts(pos, Ghost(prefix));
        proof {
            lemma_push_classification(prefix, (id, pos), w, h, *self);
            assert(reflects(*self, prefix.push((id, pos)))) by {
                reveal(reflects);
            }
        }
        Ok(())
    }

    /// Raises the stored live-neighbor count of every in-bounds neighbor of
    /// `pos` by one (out-of-bounds neighbor coordinates are skipped, never
    /// wrapped), leaving `pos`'s own entry untouched.
    #[verifier::rlimit(100)]
    fn raise_neighbour_counts(
        &mut self,
        pos: Position,
        Ghost(prefix): Ghost<Seq<(CellId, Position)>>,
    )
        requires
            old(self).wf(),
            in_bounds(pos, old(self).spec_width(), old(self).spec_height()),
            forall|p: Position|
                in_bounds(p, old(self).spec_width(), old(self).spec_height()) && p != pos ==> old(self).cell_at(p) == classify(prefix, p),
        ensures
            final(self).spec_width() == old(self).spec_width(),
            final(self).spec_height() == old(self).spec_height(),
            final(self).wf(),
            final(self).cell_at(pos) == old(self).cell_at(pos),
            forall|p: Position|
                in_bounds(p, old(self).spec_width(), old(self).spec_height()) && p != pos ==> final(self).cell_at(p) == (if is_neighbor(p, pos) {
                    bump(classify(prefix, p))
                } else {
                    classify(prefix, p)
                }),
    {
        let w = self.width;
        let h = self.height;
        let ghost orig = *self;
        proof {
            assert(w <= w * h && h <= w * h) by (nonlinear_arith)
                requires
                    1 <= w,
                    1 <= h,
            ;
        }
        let nbrs = get_neighbours(&pos);
        for t in 0..8usize
            invariant
                self.spec_width() == w,
                self.spec_height() == h,
                self.wf(),
                w <= i32::MAX,
                h <= i32::MAX,
                nbrs@.len() == 8,
                forall|q: Position| #[trigger] nbrs@.contains(q) <==> is_neighbor(q, pos),
                nbrs@.no_duplicates(),
                in_bounds(pos, w, h),
                orig == *old(self),
                self.cell_at(pos) == orig.cell_at(pos),
                forall|p: Position|
                    in_bounds(p, w, h) && p != pos ==> self.cell_at(p) == (if nbrs@.subrange(
                        0,
                        t as int,
                    ).contains(p) {
                        bump(classify(prefix, p))
                    } else {
                        classify(prefix, p)
                    }),
        {
            let q = nbrs[t];
            let ghost done = nbrs@.subrange(0, t as int);
            let ghost done_next = nbrs@.subrange(0, t as int + 1);
            proof {
                assert(nbrs@.contains(q));
                assert(is_neighbor(q, pos));
                assert(done_next =~= done.push(q));
                assert(!done.contains(q)) by {
                    if done.contains(q) {
                        let j = choose|j: int| 0 <= j < t && done[j] == q;
                        assert(nbrs@[j] == q);
                    }
                }
                assert forall|p: Position| p != q implies (done_next.contains(p) <==> done.contains(
                    p,
                )) by {
                    if done_next.contains(p) {
                        let j = choose|j: int| 0 <= j < done_next.len() && done_next[j] == p;
                        assert(j < t);
                        assert(done[j] == p);
                    }
                    if done.contains(p) {
                        let j = choose|j: int| 0 <= j < done.len() && done[j] == p;
                        assert(done_next[j] == p);
                    }
                }
                assert(done_next[t as int] == q);
                assert(done_next.contains(q));
            }
            if q.x >= 0 && q.y >= 0 && (q.x as i64) < (w as i64) && (q.y as i64) < (h as i64) {
                proof {
                    lemma_index_bound(q.x as int, q.y as int, w as int, h as int);
                    assert(in_bounds(q, w, h));
                }
                let qidx: usize = (q.x as usize) + (w as usize) * (q.y as usize);
                proof {
                    assert(qidx as int == lin(q, w));
                    assert(q != pos);
                    assert(self.cell_at(q) == classify(prefix, q));
                }
                let cur = self.cells[qidx];
                proof {
                    assert(cur == self.cell_at(q));
                    assert(live_nbrs(prefix, q) <= 8);
                }
                let upd = match cur {
                    CellType::Live(id2, nc) => CellType::Live(id2, nc + 1),
                    CellType::Dead(nc) => CellType::Dead(nc + 1),
                    CellType::Empty => CellType::Dead(1),
                };
                let ghost before = *self;
                self.cells[qidx] = upd;
                proof {
                    assert(self.cells@ == before.cells@.update(qidx as int, upd));
                    assert(upd == bump(classify(prefix, q)));
                    assert(lin(pos, w) != lin(q, w)) by {
                        if lin(pos, w) == lin(q, w) {
                            lemma_index_inj(
                                pos.x as int,
                                pos.y as int,
                                q.x as int,
                                q.y as int,
                                w as int,
                            );
                        }
                    }
                    lemma_index_bound(pos.x as int, pos.y as int, w as int, h as int);
                    assert(before.cell_at(pos) == orig.cell_at(pos));
                    assert(self.cell_at(pos) == before.cell_at(pos));
                    assert(self.cell_at(q) == bump(classify(prefix, q)));
                    assert forall|p: Position|
                        in_bounds(p, w, h) && p != pos implies self.cell_at(p) == (
                    if done_next.contains(p) {
                        bump(classify(prefix, p))
                    } else {
                        classify(prefix, p)
                    }) by {
                        if p != q {
                            lemma_index_bound(p.x as int, p.y as int, w as int, h as int);
                            assert(lin(p, w) != lin(q, w)) by {
                                if lin(p, w) == lin(q, w) {
                                    lemma_index_inj(
                                        p.x as int,
                                        p.y as int,
                                        q.x as int,
                                        q.y as int,
                                        w as int,
                                    );
                                }
                            }
                            assert(before.cell_at(p) == (if done.contains(p) {
                                bump(classify(prefix, p))
                            } else {
                                classify(prefix, p)
                            }));
                            assert(self.cell_at(p) == before.cell_at(p));
                            assert(done_next.contains(p) <==> done.contains(p));
                        }
                    }
                }
            } else {
                proof {
                    assert forall|p: Position|
                        in_bounds(p, w, h) && p != pos implies self.cell_at(p) == (
                    if done_next.contains(p) {
                        bump(classify(prefix, p))
                    } else {
                        classify(prefix, p)
                    }) by {
                        assert(p != q);
                        assert(done_next.contains(p) <==> done.contains(p));
                    }
                }
            }
        }
        proof {
            assert(nbrs@.subrange(0, 8) =~= nbrs@);
        }
    }
}

/// The eight neighboring coordinates of `position`, unclipped; callers skip
/// the ones that fall outside the grid.
fn get_neighbours(position: &Position) -> (r: Vec<Position>)
    requires
        position.x - 1 >= i32::MIN,
        position.x + 1 <= i32::MAX,
        position.y - 1 >= i32::MIN,
        position.y + 1 <= i32::MAX,
    ensures
        r@.len() == 8,
        forall|q: Position| #[trigger] r@.contains(q) <==> is_neighbor(q, *position),
        r@.no_duplicates(),
{
    let x = position.x;
    let y = position.y;
    let mut ps: Vec<Position> = Vec::new();
    ps.push(Position { x: x - 1, y: y - 1 });
    ps.push(Position { x: x - 1, y: y });
    ps.push(Position { x: x - 1, y: y + 1 });
    ps.push(Position { x: x, y: y - 1 });
    ps.push(Position { x: x, y: y + 1 });
    ps.push(Position { x: x + 1, y: y - 1 });
    ps.push(Position { x: x + 1, y: y });
    ps.push(Position { x: x + 1, y: y + 1 });
    proof {
        assert forall|q: Position| ps@.contains(q) implies is_neighbor(q, *position) by {
            let j = choose|j: int| 0 <= j < ps@.len() && ps@[j] == q;
        }
        assert forall|q: Position| is_neighbor(q, *position) implies ps@.contains(q) by {
            if q.x == x - 1 && q.y == y - 1 {
                assert(ps@[0] == q);
            } else if q.x == x - 1 && q.y == y {
                assert(ps@[1] == q);
            } else if q.x == x - 1 && q.y == y + 1 {
                assert(ps@[2] == q);
            } else if q.x == x && q.y == y - 1 {
                assert(ps@[3] == q);
            } else if q.x == x && q.y == y + 1 {
                assert(ps@[4] == q);
            } else if q.x == x + 1 && q.y == y - 1 {
                assert(ps@[5] == q);
            } else if q.x == x + 1 && q.y == y {
                assert(ps@[6] == q);
            } else {
                assert(q.x == x + 1 && q.y == y + 1);
                assert(ps@[7] == q);
            }
        }
    }
    ps
}

} // verus!
