//! Mathematical model of the board, its tiles and the identifier pool.

use vstd::prelude::*;
use vstd::multiset::Multiset;

use crate::Tile;
use crate::TileSnapshot;

verus! {

broadcast use vstd::multiset::group_multiset_axioms;

// ---------------------------------------------------------------------------
// Arithmetic
// ---------------------------------------------------------------------------

/// Floor of the base-2 logarithm; 0 for inputs below 2.
pub open spec fn log2_spec(v: int) -> int
    decreases v,
{
    if v <= 1 {
        0
    } else {
        1 + log2_spec(v / 2)
    }
}

/// Whether `v` is a power of two (and positive).
pub open spec fn is_pow2(v: int) -> bool
    decreases v,
{
    if v <= 0 {
        false
    } else if v == 1 {
        true
    } else {
        v % 2 == 0 && is_pow2(v / 2)
    }
}

pub proof fn lemma_log2_nonneg(v: int)
    ensures
        log2_spec(v) >= 0,
    decreases v,
{
    if v > 1 {
        lemma_log2_nonneg(v / 2);
    }
}

pub proof fn lemma_log2_mono(a: int, b: int)
    requires
        a <= b,
    ensures
        log2_spec(a) <= log2_spec(b),
    decreases a,
{
    lemma_log2_nonneg(b);
    if a > 1 {
        lemma_log2_mono(a / 2, b / 2);
    }
}

/// The base-2 logarithms of the bounds the engine relies on.
pub proof fn lemma_log2_literals()
    ensures
        log2_spec(2) == 1,
        log2_spec(4) == 2,
        log2_spec(0x4000_0000) == 30,
        log2_spec(0x8000_0000) == 31,
        log2_spec(0xFFFF_FFFF) == 31,
{
    reveal_with_fuel(log2_spec, 33);
}

// ---------------------------------------------------------------------------
// Views of tiles and boards
// ---------------------------------------------------------------------------

/// Mathematical image of a merge snapshot.
pub ghost struct SnapshotView {
    pub value: int,
    pub id: int,
    pub background_color: Seq<char>,
    pub text_color: Seq<char>,
    pub row: int,
    pub col: int,
}

/// Mathematical image of a tile.
pub ghost struct TileView {
    pub value: int,
    pub id: int,
    pub background_color: Seq<char>,
    pub text_color: Seq<char>,
    pub row: int,
    pub col: int,
    pub merged: Option<SnapshotView>,
}

impl View for TileSnapshot {
    type V = SnapshotView;

    open spec fn view(&self) -> SnapshotView {
        SnapshotView {
            value: self.value as int,
            id: self.id as int,
            background_color: self.background_color@,
            text_color: self.text_color@,
            row: self.row as int,
            col: self.col as int,
        }
    }
}

impl View for Tile {
    type V = TileView;

    open spec fn view(&self) -> TileView {
        TileView {
            value: self.value as int,
            id: self.id as int,
            background_color: self.background_color@,
            text_color: self.text_color@,
            row: self.row as int,
            col: self.col as int,
            merged: match self.merged {
                Some(s) => Some(s@),
                None => None,
            },
        }
    }
}

/// View of a whole board: one optional tile view per cell, row-major.
pub open spec fn bview(b: Seq<Option<Tile>>) -> Seq<Option<TileView>> {
    Seq::new(
        b.len(),
        |i: int|
            match b[i] {
                Some(t) => Some(t@),
                None => None,
            },
    )
}

/// Board index of the cell in the given row and column.
pub open spec fn cell_of(row: int, col: int) -> int {
    row * 4 + col
}

// ---------------------------------------------------------------------------
// Well-formedness of single cells and boards
// ---------------------------------------------------------------------------

/// A legal tile value: a power of two between 2 and 2^31.
pub open spec fn value_ok(v: int) -> bool {
    &&& is_pow2(v)
    &&& 2 <= v <= 0x8000_0000
}

/// A merge snapshot carries a legal value and identifier.
pub open spec fn snap_ok(m: SnapshotView) -> bool {
    &&& value_ok(m.value)
    &&& 0 <= m.id < 17
}

/// A tile stored at cell `i` is consistent: its coordinates match the cell,
/// its value is legal, its identifier is in range, and its colors are the
/// ones the color mapper assigns to its value.
pub open spec fn tile_ok(t: TileView, i: int) -> bool {
    &&& t.row == i / 4
    &&& t.col == i % 4
    &&& value_ok(t.value)
    &&& 0 <= t.id < 17
    &&& t.background_color == crate::colors::bg_color_spec(t.value)
    &&& t.text_color == crate::colors::text_color_spec()
    &&& match t.merged {
        Some(m) => snap_ok(m),
        None => true,
    }
}

pub open spec fn cell_ok(c: Option<TileView>, i: int) -> bool {
    match c {
        Some(t) => tile_ok(t, i),
        None => true,
    }
}

/// Every cell of the 16-cell board is consistent.
pub open spec fn board_ok(b: Seq<Option<TileView>>) -> bool {
    &&& b.len() == 16
    &&& forall|i: int| 0 <= i < 16 ==> cell_ok(#[trigger] b[i], i)
}

/// No tile on the board carries a merge snapshot.
pub open spec fn flags_clear(b: Seq<Option<TileView>>) -> bool {
    forall|i: int| 0 <= i < b.len() ==> (#[trigger] b[i] matches Some(t) ==> t.merged is None)
}

/// The same board with every merge snapshot removed.
pub open spec fn clear_merged(b: Seq<Option<TileView>>) -> Seq<Option<TileView>> {
    Seq::new(
        b.len(),
        |i: int|
            match b[i] {
                Some(t) => Some(TileView { merged: None, ..t }),
                None => None,
            },
    )
}

/// No two occupied cells share an identifier.
pub open spec fn ids_distinct(b: Seq<Option<TileView>>) -> bool {
    forall|i: int, j: int|
        0 <= i < j < b.len() ==> match (#[trigger] b[i], #[trigger] b[j]) {
            (Some(t), Some(u)) => t.id != u.id,
            _ => true,
        }
}

// ---------------------------------------------------------------------------
// Counting occupied cells
// ---------------------------------------------------------------------------

/// Number of occupied cells among the first `n`.
pub open spec fn occupied_count(b: Seq<Option<TileView>>, n: int) -> int
    decreases n,
{
    if n <= 0 {
        0
    } else {
        occupied_count(b, n - 1) + if b[n - 1] is Some {
            1int
        } else {
            0int
        }
    }
}

/// Number of occupied cells of the whole board.
pub open spec fn occupied_total(b: Seq<Option<TileView>>) -> int {
    occupied_count(b, b.len() as int)
}

pub proof fn lemma_occupied_count_bounds(b: Seq<Option<TileView>>, n: int)
    ensures
        0 <= occupied_count(b, n) <= if n >= 0 {
            n
        } else {
            0
        },
    decreases n,
{
    if n > 0 {
        lemma_occupied_count_bounds(b, n - 1);
    }
}

/// Updating one cell changes the occupied count only by that cell.
pub proof fn lemma_occupied_count_update(
    b: Seq<Option<TileView>>,
    i: int,
    c: Option<TileView>,
    n: int,
)
    requires
        0 <= i < b.len(),
        n <= b.len(),
    ensures
        occupied_count(b.update(i, c), n) + (if i < n && b[i] is Some {
            1int
        } else {
            0int
        }) == occupied_count(b, n) + (if i < n && c is Some {
            1int
        } else {
            0int
        }),
    decreases n,
{
    if n > 0 {
        lemma_occupied_count_update(b, i, c, n - 1);
    }
}

// ---------------------------------------------------------------------------
// Multisets of identifiers
// ---------------------------------------------------------------------------

/// Identifiers carried by one optional cell.
pub open spec fn cell_ids(c: Option<TileView>) -> Multiset<int> {
    match c {
        Some(t) => Multiset::empty().insert(t.id),
        None => Multiset::empty(),
    }
}

/// Multiset of identifiers of the first `n` cells.
pub open spec fn ids_count(b: Seq<Option<TileView>>, n: int) -> Multiset<int>
    decreases n,
{
    if n <= 0 {
        Multiset::empty()
    } else {
        ids_count(b, n - 1).add(cell_ids(b[n - 1]))
    }
}

/// Multiset of identifiers of all occupied cells.
pub open spec fn ids_mset(b: Seq<Option<TileView>>) -> Multiset<int> {
    ids_count(b, b.len() as int)
}

pub proof fn lemma_ids_count_update(b: Seq<Option<TileView>>, i: int, c: Option<TileView>, n: int)
    requires
        0 <= i < b.len(),
        n <= b.len(),
    ensures
        i < n ==> ids_count(b.update(i, c), n).add(cell_ids(b[i])) == ids_count(b, n).add(
            cell_ids(c),
        ),
        i >= n ==> ids_count(b.update(i, c), n) == ids_count(b, n),
    decreases n,
{
    if n > 0 {
        lemma_ids_count_update(b, i, c, n - 1);
        let bu = b.update(i, c);
        assert(ids_count(bu, n) == ids_count(bu, n - 1).add(cell_ids(bu[n - 1])));
        assert(ids_count(b, n) == ids_count(b, n - 1).add(cell_ids(b[n - 1])));
        if i < n {
            if i == n - 1 {
                assert(bu[n - 1] == c);
                assert(ids_count(bu, n - 1) == ids_count(b, n - 1));
            } else {
                assert(bu[n - 1] == b[n - 1]);
                assert(ids_count(bu, n - 1).add(cell_ids(b[i])) == ids_count(b, n - 1).add(
                    cell_ids(c),
                ));
            }
            assert forall|v: int|
                ids_count(bu, n).add(cell_ids(b[i])).count(v) == ids_count(b, n).add(
                    cell_ids(c),
                ).count(v) by {
                assert(ids_count(bu, n).add(cell_ids(b[i])).count(v) == ids_count(bu, n).count(v)
                    + cell_ids(b[i]).count(v));
                assert(ids_count(bu, n).count(v) == ids_count(bu, n - 1).count(v) + cell_ids(
                    bu[n - 1],
                ).count(v));
                assert(ids_count(b, n).count(v) == ids_count(b, n - 1).count(v) + cell_ids(
                    b[n - 1],
                ).count(v));
                assert(ids_count(b, n).add(cell_ids(c)).count(v) == ids_count(b, n).count(v)
                    + cell_ids(c).count(v));
                if i == n - 1 {
                    assert(ids_count(bu, n - 1).count(v) == ids_count(b, n - 1).count(v));
                    assert(cell_ids(bu[n - 1]).count(v) == cell_ids(c).count(v));
                    assert(cell_ids(b[i]).count(v) == cell_ids(b[n - 1]).count(v));
                } else {
                    assert(ids_count(bu, n - 1).add(cell_ids(b[i])).count(v) == ids_count(
                        b,
                        n - 1,
                    ).add(cell_ids(c)).count(v));
                    assert(ids_count(bu, n - 1).add(cell_ids(b[i])).count(v) == ids_count(
                        bu,
                        n - 1,
                    ).count(v) + cell_ids(b[i]).count(v));
                    assert(ids_count(b, n - 1).add(cell_ids(c)).count(v) == ids_count(
                        b,
                        n - 1,
                    ).count(v) + cell_ids(c).count(v));
                    assert(cell_ids(bu[n - 1]).count(v) == cell_ids(b[n - 1]).count(v));
                }
            }
            assert(ids_count(bu, n).add(cell_ids(b[i])) =~= ids_count(b, n).add(cell_ids(c)));
        }
    }
}

/// The identifier multiset has one element per occupied cell.
pub proof fn lemma_ids_count_len(b: Seq<Option<TileView>>, n: int)
    ensures
        ids_count(b, n).len() == occupied_count(b, n),
    decreases n,
{
    if n > 0 {
        lemma_ids_count_len(b, n - 1);
    }
}

/// An occupied cell's identifier is in the board's identifier multiset.
pub proof fn lemma_ids_count_member(b: Seq<Option<TileView>>, i: int, n: int)
    requires
        0 <= i < n,
        b[i] is Some,
    ensures
        ids_count(b, n).count(b[i]->Some_0.id) >= 1,
    decreases n,
{
    if i < n - 1 {
        lemma_ids_count_member(b, i, n - 1);
    }
}

/// Two occupied cells sharing an identifier give it multiplicity two.
pub proof fn lemma_ids_count_member_two(b: Seq<Option<TileView>>, i: int, j: int, n: int)
    requires
        0 <= i < j < n,
        b[i] is Some,
        b[j] is Some,
        b[i]->Some_0.id == b[j]->Some_0.id,
    ensures
        ids_count(b, n).count(b[i]->Some_0.id) >= 2,
    decreases n,
{
    if j < n - 1 {
        lemma_ids_count_member_two(b, i, j, n - 1);
    } else {
        lemma_ids_count_member(b, i, n - 1);
    }
}

/// Multiset of the identifiers held in the free pool.
pub open spec fn idseq_mset(s: Seq<usize>) -> Multiset<int>
    decreases s.len(),
{
    if s.len() == 0 {
        Multiset::empty()
    } else {
        idseq_mset(s.drop_last()).insert(s.last() as int)
    }
}

/// Removing the front element of the pool removes it from the multiset.
pub proof fn lemma_idseq_mset_skip1(s: Seq<usize>)
    requires
        s.len() > 0,
    ensures
        idseq_mset(s) == idseq_mset(s.skip(1)).insert(s[0] as int),
    decreases s.len(),
{
    if s.len() == 1 {
        assert(s.skip(1) =~= Seq::<usize>::empty());
        assert(s.drop_last() =~= Seq::<usize>::empty());
    } else {
        lemma_idseq_mset_skip1(s.drop_last());
        assert(s.skip(1).drop_last() =~= s.drop_last().skip(1));
        assert(s.drop_last()[0] == s[0]);
        assert(idseq_mset(s) == idseq_mset(s.drop_last()).insert(s.last() as int));
        assert(idseq_mset(s.skip(1)) == idseq_mset(s.skip(1).drop_last()).insert(
            s.skip(1).last() as int,
        ));
        assert(s.skip(1).last() == s.last());
        assert(idseq_mset(s) =~= idseq_mset(s.skip(1)).insert(s[0] as int));
    }
}

pub proof fn lemma_idseq_mset_len(s: Seq<usize>)
    ensures
        idseq_mset(s).len() == s.len(),
    decreases s.len(),
{
    if s.len() > 0 {
        lemma_idseq_mset_len(s.drop_last());
    }
}

/// An element of the pool is counted by its multiset.
pub proof fn lemma_idseq_mset_member(s: Seq<usize>, k: int)
    requires
        0 <= k < s.len(),
    ensures
        idseq_mset(s).count(s[k] as int) >= 1,
    decreases s.len(),
{
    if k < s.len() - 1 {
        lemma_idseq_mset_member(s.drop_last(), k);
        assert(s.drop_last()[k] == s[k]);
    }
}

/// The pool multiset distributes over concatenation.
pub proof fn lemma_idseq_mset_concat(a: Seq<usize>, b: Seq<usize>)
    ensures
        idseq_mset(a + b) == idseq_mset(a).add(idseq_mset(b)),
    decreases b.len(),
{
    if b.len() == 0 {
        assert(a + b =~= a);
        assert(idseq_mset(a).add(idseq_mset(b)) =~= idseq_mset(a));
    } else {
        lemma_idseq_mset_concat(a, b.drop_last());
        assert((a + b).drop_last() =~= a + b.drop_last());
        assert((a + b).last() == b.last());
        assert(idseq_mset(a + b) == idseq_mset(a + b.drop_last()).insert(b.last() as int));
        assert(idseq_mset(b) == idseq_mset(b.drop_last()).insert(b.last() as int));
        assert(idseq_mset(a).add(idseq_mset(b.drop_last()).insert(b.last() as int)) =~= idseq_mset(
            a,
        ).add(idseq_mset(b.drop_last())).insert(b.last() as int));
    }
}

/// The multiset holding each of `0 .. n` exactly once.
pub open spec fn range_mset(n: int) -> Multiset<int>
    decreases n,
{
    if n <= 0 {
        Multiset::empty()
    } else {
        range_mset(n - 1).insert(n - 1)
    }
}

pub proof fn lemma_range_mset_count(n: int, x: int)
    ensures
        range_mset(n).count(x) == if 0 <= x < n {
            1int
        } else {
            0int
        },
    decreases n,
{
    if n > 0 {
        lemma_range_mset_count(n - 1, x);
    }
}

pub proof fn lemma_range_mset_len(n: int)
    requires
        n >= 0,
    ensures
        range_mset(n).len() == n,
    decreases n,
{
    if n > 0 {
        lemma_range_mset_len(n - 1);
    }
}

/// Moving one tile from cell `i1` to cell `i2` preserves the identifier
/// multiset and the occupied count, provided the replacement tile keeps the
/// identifier.
pub proof fn lemma_ids_mset_move(b: Seq<Option<TileView>>, i1: int, i2: int, t2: TileView)
    requires
        b.len() == 16,
        0 <= i1 < 16,
        0 <= i2 < 16,
        b[i1] is Some,
        t2.id == b[i1]->0.id,
        i1 != i2 ==> b[i2] is None,
    ensures
        ids_mset(b.update(i1, None).update(i2, Some(t2))) == ids_mset(b),
        occupied_total(b.update(i1, None).update(i2, Some(t2))) == occupied_total(b),
{
    let b1 = b.update(i1, None);
    let b2 = b1.update(i2, Some(t2));
    lemma_ids_mset_update(b, i1, None);
    lemma_ids_mset_update(b1, i2, Some(t2));
    assert forall|v: int| ids_mset(b2).count(v) == ids_mset(b).count(v) by {
        assert(ids_mset(b2).add(cell_ids(b1[i2])).count(v) == ids_mset(b1).add(
            cell_ids(Some(t2)),
        ).count(v));
        assert(ids_mset(b1).add(cell_ids(b[i1])).count(v) == ids_mset(b).add(
            cell_ids(None::<TileView>),
        ).count(v));
        if i1 == i2 {
            assert(b1[i2] is None);
        }
    }
    assert(ids_mset(b2) =~= ids_mset(b));
}

/// A merge takes the tiles of cells `i1` and `i2` and leaves a single tile
/// at `i2` carrying the identifier of the tile from `i1`: the identifier of
/// the tile from `i2` leaves the board, and one cell empties.
pub proof fn lemma_ids_mset_merge(b: Seq<Option<TileView>>, i1: int, i2: int, t2: TileView)
    requires
        b.len() == 16,
        0 <= i1 < 16,
        0 <= i2 < 16,
        i1 != i2,
        b[i1] is Some,
        b[i2] is Some,
        t2.id == b[i1]->0.id,
    ensures
        ids_mset(b.update(i1, None).update(i2, None).update(i2, Some(t2))).insert(b[i2]->0.id)
            == ids_mset(b),
        occupied_total(b.update(i1, None).update(i2, None).update(i2, Some(t2))) + 1
            == occupied_total(b),
{
    let b1 = b.update(i1, None);
    let b2 = b1.update(i2, None);
    let b3 = b2.update(i2, Some(t2));
    lemma_ids_mset_update(b, i1, None);
    lemma_ids_mset_update(b1, i2, None);
    lemma_ids_mset_update(b2, i2, Some(t2));
    assert forall|v: int| ids_mset(b3).insert(b[i2]->0.id).count(v) == ids_mset(b).count(v) by {
        assert(ids_mset(b3).add(cell_ids(b2[i2])).count(v) == ids_mset(b2).add(
            cell_ids(Some(t2)),
        ).count(v));
        assert(ids_mset(b2).add(cell_ids(b1[i2])).count(v) == ids_mset(b1).add(
            cell_ids(None::<TileView>),
        ).count(v));
        assert(ids_mset(b1).add(cell_ids(b[i1])).count(v) == ids_mset(b).add(
            cell_ids(None::<TileView>),
        ).count(v));
        assert(b1[i2] == b[i2]);
    }
    assert(ids_mset(b3).insert(b[i2]->0.id) =~= ids_mset(b));
}

// ---------------------------------------------------------------------------
// Free slots
// ---------------------------------------------------------------------------

/// Coordinates of the unoccupied cells among the first `n`, row-major.
pub open spec fn free_list(b: Seq<Option<TileView>>, n: int) -> Seq<(usize, usize)>
    decreases n,
{
    if n <= 0 {
        Seq::empty()
    } else {
        free_list(b, n - 1) + if b[n - 1] is None {
            seq![(((n - 1) / 4) as usize, ((n - 1) % 4) as usize)]
        } else {
            Seq::empty()
        }
    }
}

pub proof fn lemma_free_list_len(b: Seq<Option<TileView>>, n: int)
    requires
        n >= 0,
    ensures
        free_list(b, n).len() == n - occupied_count(b, n),
    decreases n,
{
    if n > 0 {
        lemma_free_list_len(b, n - 1);
    }
}

/// Every entry of the free list denotes an unoccupied cell in range.
pub proof fn lemma_free_list_members(b: Seq<Option<TileView>>, n: int)
    requires
        0 <= n <= 16,
    ensures
        forall|k: int|
            0 <= k < free_list(b, n).len() ==> {
                let rc = #[trigger] free_list(b, n)[k];
                &&& rc.0 < 4
                &&& rc.1 < 4
                &&& cell_of(rc.0 as int, rc.1 as int) < n
                &&& b[cell_of(rc.0 as int, rc.1 as int)] is None
            },
    decreases n,
{
    if n > 0 {
        lemma_free_list_members(b, n - 1);
        if b[n - 1] is None {
            assert(free_list(b, n).last() == ((((n - 1) / 4) as usize, ((n - 1) % 4) as usize)));
            assert(cell_of(((n - 1) / 4) as usize as int, ((n - 1) % 4) as usize as int) == n - 1);
        }
    }
}

// ---------------------------------------------------------------------------
// The occupied tiles of a board, in row-major order
// ---------------------------------------------------------------------------

/// The tiles of the occupied cells, in cell order.
pub open spec fn tiles_of(cells: Seq<Option<TileView>>) -> Seq<TileView>
    decreases cells.len(),
{
    if cells.len() == 0 {
        Seq::empty()
    } else {
        let rest = tiles_of(cells.drop_last());
        match cells.last() {
            Some(t) => rest.push(t),
            None => rest,
        }
    }
}

/// The views of a sequence of tiles.
pub open spec fn views_of(s: Seq<Tile>) -> Seq<TileView> {
    Seq::new(s.len(), |i: int| s[i]@)
}

/// Clearing merge snapshots does not change which cells are occupied, nor
/// their identifiers, nor the board's consistency.
pub proof fn lemma_clear_merged_facts(b: Seq<Option<TileView>>)
    requires
        b.len() == 16,
    ensures
        board_ok(b) ==> board_ok(clear_merged(b)),
        flags_clear(clear_merged(b)),
        occupied_total(clear_merged(b)) == occupied_total(b),
        ids_mset(clear_merged(b)) == ids_mset(b),
{
    lemma_clear_merged_counts(b, 16);
}

proof fn lemma_clear_merged_counts(b: Seq<Option<TileView>>, n: int)
    requires
        b.len() == 16,
        n <= 16,
    ensures
        occupied_count(clear_merged(b), n) == occupied_count(b, n),
        ids_count(clear_merged(b), n) == ids_count(b, n),
    decreases n,
{
    if n > 0 {
        lemma_clear_merged_counts(b, n - 1);
        assert(cell_ids(clear_merged(b)[n - 1]) == cell_ids(b[n - 1]));
    }
}

/// A board with an empty cell is not full.
pub proof fn lemma_occupied_not_full(b: Seq<Option<TileView>>, i: int)
    requires
        b.len() == 16,
        0 <= i < 16,
        b[i] is None,
    ensures
        occupied_total(b) < 16,
{
    lemma_occupied_gap(b, i, 16);
}

proof fn lemma_occupied_gap(b: Seq<Option<TileView>>, i: int, n: int)
    requires
        0 <= i < n,
        b[i] is None,
    ensures
        occupied_count(b, n) < n,
    decreases n,
{
    lemma_occupied_count_bounds(b, n - 1);
    if i < n - 1 {
        lemma_occupied_gap(b, i, n - 1);
    }
}

/// On a fully occupied stretch of cells, the tiles are the cell contents in
/// order.
pub proof fn lemma_tiles_of_full(cells: Seq<Option<TileView>>)
    requires
        forall|q: int| 0 <= q < cells.len() ==> (#[trigger] cells[q]) is Some,
    ensures
        tiles_of(cells).len() == cells.len(),
        forall|q: int| 0 <= q < cells.len() ==> #[trigger] tiles_of(cells)[q] == cells[q]->0,
    decreases cells.len(),
{
    if cells.len() > 0 {
        lemma_tiles_of_full(cells.drop_last());
    }
}

/// A board whose identifiers, together with any pool, form the set
/// `0 .. 17` with no repetitions has no duplicate identifiers.
pub proof fn lemma_distinct_from_mset(b: Seq<Option<TileView>>, m: Multiset<int>)
    requires
        b.len() == 16,
        ids_mset(b).add(m) == range_mset(17),
    ensures
        ids_distinct(b),
{
    assert forall|i: int, j: int| 0 <= i < j < b.len() implies match (
        #[trigger] b[i],
        #[trigger] b[j],
    ) {
        (Some(t), Some(u)) => t.id != u.id,
        _ => true,
    } by {
        if b[i] is Some && b[j] is Some && b[i]->0.id == b[j]->0.id {
            lemma_ids_count_member_two(b, i, j, 16);
            lemma_range_mset_count(17, b[i]->0.id);
            assert(range_mset(17).count(b[i]->0.id) == ids_mset(b).count(b[i]->0.id) + m.count(
                b[i]->0.id,
            ));
            assert(false);
        }
    }
}

/// A sequence of identifiers as mathematical integers.
pub open spec fn ids_int(s: Seq<usize>) -> Seq<int> {
    Seq::new(s.len(), |i: int| s[i] as int)
}

/// Every tile of `tiles_of(cells)` is the content of one of the cells.
pub proof fn lemma_tiles_of_member(cells: Seq<Option<TileView>>)
    ensures
        forall|q: int|
            0 <= q < tiles_of(cells).len() ==> exists|i: int|
                0 <= i < cells.len() && cells[i] == Some(#[trigger] tiles_of(cells)[q]),
    decreases cells.len(),
{
    if cells.len() > 0 {
        lemma_tiles_of_member(cells.drop_last());
        assert forall|q: int| 0 <= q < tiles_of(cells).len() implies exists|i: int|
            0 <= i < cells.len() && cells[i] == Some(#[trigger] tiles_of(cells)[q]) by {
            let rest = tiles_of(cells.drop_last());
            if q < rest.len() {
                assert(tiles_of(cells)[q] == rest[q]);
                let i = choose|i: int|
                    0 <= i < cells.drop_last().len() && cells.drop_last()[i] == Some(rest[q]);
                assert(cells[i] == Some(tiles_of(cells)[q]));
            } else {
                assert(cells.last() == Some(tiles_of(cells)[q]));
                assert(cells[cells.len() - 1] == Some(tiles_of(cells)[q]));
            }
        }
    }
}

/// One cell update, seen through the identifier multiset and the occupied
/// count of the whole board.
pub proof fn lemma_ids_mset_update(b: Seq<Option<TileView>>, i: int, c: Option<TileView>)
    requires
        0 <= i < b.len(),
        b.len() == 16,
    ensures
        ids_mset(b.update(i, c)).add(cell_ids(b[i])) == ids_mset(b).add(cell_ids(c)),
        occupied_total(b.update(i, c)) + (if b[i] is Some {
            1int
        } else {
            0int
        }) == occupied_total(b) + (if c is Some {
            1int
        } else {
            0int
        }),
{
    lemma_ids_count_update(b, i, c, 16);
    lemma_occupied_count_update(b, i, c, 16);
}

// ---------------------------------------------------------------------------
// Spawn settings and terminal states
// ---------------------------------------------------------------------------

/// The spawn settings offer the values 2 and 4 with positive weights whose
/// sum stays within one byte.
pub open spec fn params_ok(p: crate::NewTileParams) -> bool {
    &&& p.tile_choices@ == seq![2u32, 4u32]
    &&& p.tile_weights@.len() == 2
    &&& 1 <= p.tile_weights@[0]
    &&& 1 <= p.tile_weights@[1]
    &&& p.tile_weights@[0] + p.tile_weights@[1] <= 255
}

/// Every occupied cell holds a 2 or a 4, and no two occupied cells both
/// hold a 4.
pub open spec fn starting_values_ok(b: Seq<Option<TileView>>) -> bool {
    &&& forall|i: int|
        0 <= i < b.len() ==> (#[trigger] b[i] matches Some(t) ==> t.value == 2 || t.value == 4)
    &&& forall|i: int, j: int|
        0 <= i < j < b.len() ==> match (#[trigger] b[i], #[trigger] b[j]) {
            (Some(t), Some(u)) => !(t.value == 4 && u.value == 4),
            _ => true,
        }
}

/// All 16 cells are occupied.
pub open spec fn full_board(b: Seq<Option<TileView>>) -> bool {
    forall|i: int| 0 <= i < 16 ==> b[i] is Some
}

/// If both cells are occupied, their values differ.
pub open spec fn both_differ(x: Option<TileView>, y: Option<TileView>) -> bool {
    match (x, y) {
        (Some(t), Some(u)) => t.value != u.value,
        _ => true,
    }
}

/// No two horizontally or vertically adjacent occupied cells hold equal
/// values.
pub open spec fn no_adjacent_equal(b: Seq<Option<TileView>>) -> bool {
    &&& forall|r: int, c: int|
        0 <= r < 4 && 0 <= c < 3 ==> both_differ(
            #[trigger] b[cell_of(r, c)],
            b[cell_of(r, c + 1)],
        )
    &&& forall|r: int, c: int|
        0 <= r < 3 && 0 <= c < 4 ==> both_differ(
            #[trigger] b[cell_of(r, c)],
            b[cell_of(r + 1, c)],
        )
}

/// A lost position: the board is full and no move could change it.
pub open spec fn is_terminal(b: Seq<Option<TileView>>) -> bool {
    &&& full_board(b)
    &&& no_adjacent_equal(b)
}

/// Some tile has reached the win target.
pub open spec fn any_tile_at_least(b: Seq<Option<TileView>>, target: int) -> bool {
    exists|i: int| 0 <= i < b.len() && (#[trigger] b[i] matches Some(t) && t.value >= target)
}

} // verus!
