//! Move resolution: mapping input tokens to directions, and compacting and
//! merging the tiles of each line.
//!
//! A move is resolved line by line.  Within a line the occupied cells are
//! read from the edge the tiles move toward; each tile either merges with
//! the previous surviving tile (when their values are equal and that tile
//! has not merged this turn) or is placed in the next free slot.  The spec
//! [`pair_seq`] captures this as a fold over the line's tiles, and
//! [`resolve`] lifts it to the whole board.

use vstd::prelude::*;
use vstd::multiset::Multiset;

use crate::Direction;
use crate::InputResult;
use crate::Tile;
use crate::TileSnapshot;
use crate::game::take_cell;
use crate::model::SnapshotView;
use crate::model::TileView;
use crate::model::bview;
use crate::model::cell_ids;
use crate::model::ids_mset;
use crate::model::idseq_mset;
use crate::model::is_pow2;
use crate::model::occupied_total;
use crate::model::tiles_of;
use crate::model::value_ok;

verus! {

broadcast use vstd::multiset::group_multiset_axioms;

// ---------------------------------------------------------------------------
// Input tokens
// ---------------------------------------------------------------------------

/// The direction requested by an input token, if any.
///
/// The tokens are the key codes the presentation layer forwards: the arrow
/// keys, the `hjkl` keys and the `wasd` keys.
pub open spec fn spec_parse_direction(s: Seq<char>) -> Option<Direction> {
    if s == "ArrowUp"@ || s == "KeyK"@ || s == "KeyW"@ {
        Some(Direction::Up)
    } else if s == "ArrowDown"@ || s == "KeyJ"@ || s == "KeyS"@ {
        Some(Direction::Down)
    } else if s == "ArrowLeft"@ || s == "KeyH"@ || s == "KeyA"@ {
        Some(Direction::Left)
    } else if s == "ArrowRight"@ || s == "KeyL"@ || s == "KeyD"@ {
        Some(Direction::Right)
    } else {
        None
    }
}

/// Compares two strings for equality of their character sequences.
fn str_eq(a: &str, b: &str) -> (r: bool)
    ensures
        r == (a@ == b@),
{
    let a_owned = a.to_owned();
    let b_owned = b.to_owned();
    a_owned == b_owned
}

/// Maps an input token to a direction; unrecognized tokens map to `None`.
pub fn parse_direction(input: &str) -> (d: Option<Direction>)
    ensures
        d == spec_parse_direction(input@),
{
    if str_eq(input, "ArrowUp") || str_eq(input, "KeyK") || str_eq(input, "KeyW") {
        Some(Direction::Up)
    } else if str_eq(input, "ArrowDown") || str_eq(input, "KeyJ") || str_eq(input, "KeyS") {
        Some(Direction::Down)
    } else if str_eq(input, "ArrowLeft") || str_eq(input, "KeyH") || str_eq(input, "KeyA") {
        Some(Direction::Left)
    } else if str_eq(input, "ArrowRight") || str_eq(input, "KeyL") || str_eq(input, "KeyD") {
        Some(Direction::Right)
    } else {
        None
    }
}

// ---------------------------------------------------------------------------
// Line geometry
// ---------------------------------------------------------------------------

/// Board index of position `j` of line `l`, counting positions from the
/// edge the tiles move toward.
pub open spec fn line_cell(dir: Direction, l: int, j: int) -> int {
    match dir {
        Direction::Left => 4 * l + j,
        Direction::Right => 4 * l + 3 - j,
        Direction::Up => 4 * j + l,
        Direction::Down => 4 * (3 - j) + l,
    }
}

/// The line that board cell `i` belongs to, for the given direction.
pub open spec fn line_idx(dir: Direction, i: int) -> int {
    match dir {
        Direction::Left => i / 4,
        Direction::Right => i / 4,
        Direction::Up => i % 4,
        Direction::Down => i % 4,
    }
}

/// The position of board cell `i` within its line.
pub open spec fn line_pos(dir: Direction, i: int) -> int {
    match dir {
        Direction::Left => i % 4,
        Direction::Right => 3 - i % 4,
        Direction::Up => i / 4,
        Direction::Down => 3 - i / 4,
    }
}

/// The cells of line `l`, ordered from the target edge outward.
pub open spec fn line_of(b: Seq<Option<TileView>>, dir: Direction, l: int) -> Seq<
    Option<TileView>,
> {
    Seq::new(4, |j: int| b[line_cell(dir, l, j)])
}

/// Lines partition the board: positions map to cells and back.
pub proof fn lemma_line_geometry(dir: Direction)
    ensures
        forall|l: int, j: int|
            0 <= l < 4 && 0 <= j < 4 ==> {
                &&& 0 <= #[trigger] line_cell(dir, l, j) < 16
                &&& line_idx(dir, line_cell(dir, l, j)) == l
                &&& line_pos(dir, line_cell(dir, l, j)) == j
            },
        forall|i: int|
            0 <= i < 16 ==> {
                &&& 0 <= #[trigger] line_idx(dir, i) < 4
                &&& 0 <= line_pos(dir, i) < 4
                &&& line_cell(dir, line_idx(dir, i), line_pos(dir, i)) == i
            },
{
}

// ---------------------------------------------------------------------------
// Compacting and merging one line
// ---------------------------------------------------------------------------

/// One surviving tile of a compacted line, together with the tile it
/// absorbed, if it merged this turn.
pub ghost struct MergePair {
    pub keeper: TileView,
    pub absorbed: Option<TileView>,
}

/// Whether the next tile merges with the last surviving tile: that tile has
/// not merged this turn, the values are equal, and the doubled value still
/// fits the legal value range.
pub open spec fn can_join(acc: Seq<MergePair>, t: TileView) -> bool {
    &&& acc.len() > 0
    &&& acc.last().absorbed is None
    &&& acc.last().keeper.value == t.value
    &&& t.value <= 0x4000_0000
}

/// Folds the next tile of a line into the compacted prefix.
pub open spec fn pair_step(acc: Seq<MergePair>, t: TileView) -> Seq<MergePair> {
    if can_join(acc, t) {
        acc.update(acc.len() - 1, MergePair { keeper: t, absorbed: Some(acc.last().keeper) })
    } else {
        acc.push(MergePair { keeper: t, absorbed: None })
    }
}

/// The compacted form of a line's tiles: each tile, in order from the
/// target edge, either opens a new slot or closes the previous one by
/// merging into it.  A closed slot never merges again, so four equal tiles
/// give two pairs, never one.
pub open spec fn pair_seq(ts: Seq<TileView>) -> Seq<MergePair>
    decreases ts.len(),
{
    if ts.len() == 0 {
        Seq::empty()
    } else {
        pair_step(pair_seq(ts.drop_last()), ts.last())
    }
}

/// The tile that a compacted slot holds once placed at row `r`, column `c`:
/// either the surviving tile moved there, or, after a merge, the surviving
/// tile with doubled value, recolored, carrying a snapshot of the absorbed
/// tile at the merge cell.
pub open spec fn pair_result(p: MergePair, r: int, c: int) -> TileView {
    match p.absorbed {
        None => TileView { row: r, col: c, ..p.keeper },
        Some(a) => TileView {
            value: 2 * p.keeper.value,
            id: p.keeper.id,
            background_color: crate::colors::bg_color_spec(2 * p.keeper.value),
            text_color: p.keeper.text_color,
            row: r,
            col: c,
            merged: Some(
                SnapshotView {
                    value: a.value,
                    id: a.id,
                    background_color: a.background_color,
                    text_color: a.text_color,
                    row: r,
                    col: c,
                },
            ),
        },
    }
}

/// The cells of a line after resolution: the compacted pairs from the
/// target edge, then empty cells.
pub open spec fn line_result(cells: Seq<Option<TileView>>, dir: Direction, l: int) -> Seq<
    Option<TileView>,
> {
    let ps = pair_seq(tiles_of(cells));
    Seq::new(
        4,
        |j: int|
            if j < ps.len() {
                Some(pair_result(ps[j], line_cell(dir, l, j) / 4, line_cell(dir, l, j) % 4))
            } else {
                None
            },
    )
}

/// The whole board after resolving a move, before the new tile spawns.
pub open spec fn resolve(b: Seq<Option<TileView>>, dir: Direction) -> Seq<Option<TileView>> {
    Seq::new(
        16,
        |i: int|
            line_result(line_of(b, dir, line_idx(dir, i)), dir, line_idx(dir, i))[line_pos(dir, i)],
    )
}

// ---------------------------------------------------------------------------
// Score and recycled identifiers
// ---------------------------------------------------------------------------

/// The score a compacted line earns: the doubled value of every merge, in
/// the order the merges occur.
pub open spec fn pairs_score(ps: Seq<MergePair>) -> int
    decreases ps.len(),
{
    if ps.len() == 0 {
        0
    } else {
        pairs_score(ps.drop_last()) + match ps.last().absorbed {
            Some(_) => 2 * ps.last().keeper.value,
            None => 0int,
        }
    }
}

/// The identifiers freed by a compacted line's merges, in merge order.
pub open spec fn pairs_recycled(ps: Seq<MergePair>) -> Seq<int>
    decreases ps.len(),
{
    if ps.len() == 0 {
        Seq::empty()
    } else {
        pairs_recycled(ps.drop_last()) + match ps.last().absorbed {
            Some(a) => seq![a.id],
            None => Seq::empty(),
        }
    }
}

pub open spec fn line_score(cells: Seq<Option<TileView>>) -> int {
    pairs_score(pair_seq(tiles_of(cells)))
}

pub open spec fn line_recycled(cells: Seq<Option<TileView>>) -> Seq<int> {
    pairs_recycled(pair_seq(tiles_of(cells)))
}

/// The score earned by the first `l` lines of a move.
pub open spec fn move_score_upto(b: Seq<Option<TileView>>, dir: Direction, l: int) -> int
    decreases l,
{
    if l <= 0 {
        0
    } else {
        move_score_upto(b, dir, l - 1) + line_score(line_of(b, dir, l - 1))
    }
}

/// The total score earned by a move, merge by merge in processing order.
pub open spec fn move_score(b: Seq<Option<TileView>>, dir: Direction) -> int {
    move_score_upto(b, dir, 4)
}

/// The identifiers freed by the first `l` lines of a move, in order.
pub open spec fn move_recycled_upto(b: Seq<Option<TileView>>, dir: Direction, l: int) -> Seq<int>
    decreases l,
{
    if l <= 0 {
        Seq::empty()
    } else {
        move_recycled_upto(b, dir, l - 1) + line_recycled(line_of(b, dir, l - 1))
    }
}

/// All identifiers freed by a move, in the order the merges occur.
pub open spec fn move_recycled(b: Seq<Option<TileView>>, dir: Direction) -> Seq<int> {
    move_recycled_upto(b, dir, 4)
}

/// Saturating addition of a nonnegative amount to a 64-bit score.
pub open spec fn sat_add_u64(a: int, x: int) -> int {
    if a + x <= u64::MAX {
        a + x
    } else {
        u64::MAX as int
    }
}

// ---------------------------------------------------------------------------
// Structural facts about compacted lines
// ---------------------------------------------------------------------------

/// A compacted line has at most as many slots as tiles.
pub proof fn lemma_pair_seq_len(ts: Seq<TileView>)
    ensures
        pair_seq(ts).len() <= ts.len(),
        ts.len() > 0 ==> pair_seq(ts).len() >= 1,
    decreases ts.len(),
{
    if ts.len() > 0 {
        lemma_pair_seq_len(ts.drop_last());
    }
}

/// Every keeper and every absorbed tile of a compacted line is one of the
/// line's tiles.
pub proof fn lemma_pair_seq_members(ts: Seq<TileView>)
    ensures
        forall|p: int|
            0 <= p < pair_seq(ts).len() ==> {
                &&& ts.contains(#[trigger] pair_seq(ts)[p].keeper)
                &&& (pair_seq(ts)[p].absorbed matches Some(a) ==> ts.contains(a))
            },
    decreases ts.len(),
{
    if ts.len() > 0 {
        lemma_pair_seq_members(ts.drop_last());
        assert forall|x: TileView| ts.drop_last().contains(x) implies ts.contains(x) by {
            let q = choose|q: int| 0 <= q < ts.drop_last().len() && ts.drop_last()[q] == x;
            assert(ts[q] == x);
        }
        assert(ts.contains(ts.last()));
    }
}

/// The number of merges of a compacted line equals the number of tiles
/// minus the number of slots, and the recycled identifiers count them.
pub proof fn lemma_pair_seq_counts(ts: Seq<TileView>)
    ensures
        pairs_recycled(pair_seq(ts)).len() == ts.len() - pair_seq(ts).len(),
    decreases ts.len(),
{
    if ts.len() > 0 {
        lemma_pair_seq_counts(ts.drop_last());
        let acc = pair_seq(ts.drop_last());
        if can_join(acc, ts.last()) {
            let ps = pair_seq(ts);
            assert(ps == acc.update(acc.len() - 1, MergePair {
                keeper: ts.last(),
                absorbed: Some(acc.last().keeper),
            }));
            lemma_pairs_recycled_update_last(acc, ts.last());
        } else {
            let ps = pair_seq(ts);
            assert(ps.drop_last() =~= acc);
            assert(ps.last().absorbed is None);
        }
    }
}

/// Closing the last slot of a compacted prefix appends exactly the absorbed
/// identifier to the recycled list and its doubled value to the score.
pub proof fn lemma_pairs_recycled_update_last(acc: Seq<MergePair>, t: TileView)
    requires
        can_join(acc, t),
    ensures
        pairs_recycled(
            acc.update(acc.len() - 1, MergePair { keeper: t, absorbed: Some(acc.last().keeper) }),
        ) == pairs_recycled(acc) + seq![acc.last().keeper.id],
        pairs_score(
            acc.update(acc.len() - 1, MergePair { keeper: t, absorbed: Some(acc.last().keeper) }),
        ) == pairs_score(acc) + 2 * t.value,
{
    let closed = MergePair { keeper: t, absorbed: Some(acc.last().keeper) };
    let ps = acc.update(acc.len() - 1, closed);
    assert(ps.drop_last() =~= acc.drop_last());
    assert(ps.last() == closed);
    assert(pairs_recycled(acc) == pairs_recycled(acc.drop_last()) + Seq::<int>::empty());
    assert(pairs_recycled(acc) =~= pairs_recycled(acc.drop_last()));
    assert(pairs_score(acc) == pairs_score(acc.drop_last()));
}

/// The output cells of the first `j` positions of a line.
pub open spec fn out_prefix(b: Seq<Option<TileView>>, dir: Direction, l: int, j: int) -> Seq<
    Option<TileView>,
> {
    Seq::new(j as nat, |p: int| b[line_cell(dir, l, p)])
}

/// Board index of position `j` of line `l`.
fn cell_index(dir: Direction, l: usize, j: usize) -> (i: usize)
    requires
        l < 4,
        j < 4,
    ensures
        i as int == line_cell(dir, l as int, j as int),
        i < 16,
{
    match dir {
        Direction::Left => 4 * l + j,
        Direction::Right => 4 * l + 3 - j,
        Direction::Up => 4 * j + l,
        Direction::Down => 4 * (3 - j) + l,
    }
}

/// All tiles of the first `j` cells of a line satisfy the board's cell
/// consistency and carry no merge snapshot.
proof fn lemma_prefix_tile_props(cells: Seq<Option<TileView>>, j: int)
    requires
        0 <= j <= cells.len(),
        forall|q: int|
            0 <= q < cells.len() ==> (#[trigger] cells[q] matches Some(t) ==> {
                &&& t.merged is None
                &&& value_ok(t.value)
                &&& 0 <= t.id < 17
            }),
    ensures
        forall|q: int|
            0 <= q < tiles_of(cells.take(j)).len() ==> {
                &&& (#[trigger] tiles_of(cells.take(j))[q]).merged is None
                &&& value_ok(tiles_of(cells.take(j))[q].value)
                &&& 0 <= tiles_of(cells.take(j))[q].id < 17
            },
{
    crate::model::lemma_tiles_of_member(cells.take(j));
    assert forall|q: int| 0 <= q < tiles_of(cells.take(j)).len() implies {
        &&& (#[trigger] tiles_of(cells.take(j))[q]).merged is None
        &&& value_ok(tiles_of(cells.take(j))[q].value)
        &&& 0 <= tiles_of(cells.take(j))[q].id < 17
    } by {
        let i = choose|i: int|
            0 <= i < cells.take(j).len() && cells.take(j)[i] == Some(tiles_of(cells.take(j))[q]);
        assert(cells[i] == Some(tiles_of(cells.take(j))[q]));
    }
}

/// The score of a compacted line is nonnegative when its tiles carry
/// nonnegative values.
pub proof fn lemma_pairs_score_nonneg(ts: Seq<TileView>)
    requires
        forall|q: int| 0 <= q < ts.len() ==> (#[trigger] ts[q]).value >= 0,
    ensures
        pairs_score(pair_seq(ts)) >= 0,
    decreases ts.len(),
{
    if ts.len() > 0 {
        assert(forall|q: int|
            0 <= q < ts.drop_last().len() ==> (#[trigger] ts.drop_last()[q]).value >= 0);
        lemma_pairs_score_nonneg(ts.drop_last());
        let acc = pair_seq(ts.drop_last());
        if can_join(acc, ts.last()) {
            assert(ts.contains(ts.last()));
            assert(ts.last().value >= 0);
            lemma_pairs_recycled_update_last(acc, ts.last());
        } else {
            assert(pair_seq(ts).drop_last() =~= acc);
        }
    }
}


/// A compacted line without merges keeps each tile in its own slot, in
/// order.
pub proof fn lemma_pair_seq_nomerge(ts: Seq<TileView>)
    requires
        pair_seq(ts).len() == ts.len(),
    ensures
        forall|p: int|
            0 <= p < ts.len() ==> #[trigger] pair_seq(ts)[p] == (MergePair {
                keeper: ts[p],
                absorbed: None,
            }),
    decreases ts.len(),
{
    if ts.len() > 0 {
        let acc = pair_seq(ts.drop_last());
        lemma_pair_seq_len(ts.drop_last());
        if can_join(acc, ts.last()) {
            assert(pair_seq(ts).len() == acc.len());
            assert(false);
        }
        lemma_pair_seq_nomerge(ts.drop_last());
        assert forall|p: int| 0 <= p < ts.len() implies #[trigger] pair_seq(ts)[p] == (MergePair {
            keeper: ts[p],
            absorbed: None,
        }) by {
            if p < ts.len() - 1 {
                assert(pair_seq(ts)[p] == acc[p]);
                assert(ts.drop_last()[p] == ts[p]);
            }
        }
    }
}

/// A compacted line that earned score or freed identifiers closed at least
/// one slot by a merge.
pub proof fn lemma_pairs_has_merge(ps: Seq<MergePair>)
    requires
        pairs_score(ps) != 0 || pairs_recycled(ps).len() != 0,
    ensures
        exists|p: int| 0 <= p < ps.len() && (#[trigger] ps[p]).absorbed is Some,
    decreases ps.len(),
{
    if ps.len() > 0 {
        if ps.last().absorbed is Some {
            assert(ps[ps.len() - 1].absorbed is Some);
        } else {
            lemma_pairs_has_merge(ps.drop_last());
            let p = choose|p: int|
                0 <= p < ps.drop_last().len() && (#[trigger] ps.drop_last()[p]).absorbed is Some;
            assert(ps[p].absorbed is Some);
        }
    }
}

/// The tile list of a line is no longer than the line.
pub proof fn lemma_tiles_of_len(cells: Seq<Option<TileView>>)
    ensures
        tiles_of(cells).len() <= cells.len(),
    decreases cells.len(),
{
    if cells.len() > 0 {
        lemma_tiles_of_len(cells.drop_last());
    }
}

/// A line whose resolution leaves it unchanged earned no score and freed
/// no identifiers.
pub proof fn lemma_unchanged_line_zero(cells: Seq<Option<TileView>>, dir: Direction, l: int)
    requires
        cells.len() == 4,
        forall|q: int| 0 <= q < 4 ==> (#[trigger] cells[q] matches Some(t) ==> t.merged is None),
        line_result(cells, dir, l) == cells,
    ensures
        line_score(cells) == 0,
        line_recycled(cells).len() == 0,
{
    let ts = tiles_of(cells);
    let ps = pair_seq(ts);
    if pairs_score(ps) != 0 || pairs_recycled(ps).len() != 0 {
        lemma_pairs_has_merge(ps);
        let p = choose|p: int| 0 <= p < ps.len() && (#[trigger] ps[p]).absorbed is Some;
        lemma_pair_seq_len(ts);
        lemma_tiles_of_len(cells);
        assert(line_result(cells, dir, l)[p] == Some(
            pair_result(ps[p], line_cell(dir, l, p) / 4, line_cell(dir, l, p) % 4),
        ));
        assert(pair_result(ps[p], line_cell(dir, l, p) / 4, line_cell(dir, l, p) % 4).merged
            is Some);
        assert(line_result(cells, dir, l)[p] == cells[p]);
        assert(false);
    }
}

/// A full line whose compaction merges nothing is left unchanged by
/// resolution.
pub proof fn lemma_full_line_unchanged(cells: Seq<Option<TileView>>, dir: Direction, l: int)
    requires
        0 <= l < 4,
        cells.len() == 4,
        forall|q: int| 0 <= q < 4 ==> (#[trigger] cells[q]) is Some,
        forall|q: int|
            0 <= q < 4 ==> crate::model::cell_ok(#[trigger] cells[q], line_cell(dir, l, q)),
        line_recycled(cells).len() == 0,
    ensures
        line_result(cells, dir, l) == cells,
{
    let ts = tiles_of(cells);
    let ps = pair_seq(ts);
    crate::model::lemma_tiles_of_full(cells);
    lemma_pair_seq_counts(ts);
    assert(ps.len() == 4);
    lemma_pair_seq_nomerge(ts);
    assert forall|j: int| 0 <= j < 4 implies line_result(cells, dir, l)[j] == cells[j] by {
        assert(ps[j] == (MergePair { keeper: ts[j], absorbed: None }));
        assert(ts[j] == cells[j]->0);
        assert(line_result(cells, dir, l)[j] == Some(
            pair_result(ps[j], line_cell(dir, l, j) / 4, line_cell(dir, l, j) % 4),
        ));
        assert(crate::model::cell_ok(cells[j], line_cell(dir, l, j)));
    }
    assert(line_result(cells, dir, l) =~= cells);
}

/// Resolution leaves the whole board unchanged exactly when it leaves
/// every line unchanged.
pub proof fn lemma_resolve_noop(b: Seq<Option<TileView>>, dir: Direction)
    requires
        b.len() == 16,
    ensures
        (resolve(b, dir) == b) <==> (forall|ll: int|
            0 <= ll < 4 ==> #[trigger] line_result(line_of(b, dir, ll), dir, ll) == line_of(
                b,
                dir,
                ll,
            )),
{
    lemma_line_geometry(dir);
    if resolve(b, dir) == b {
        assert forall|ll: int| 0 <= ll < 4 implies #[trigger] line_result(
            line_of(b, dir, ll),
            dir,
            ll,
        ) == line_of(b, dir, ll) by {
            assert forall|j: int| 0 <= j < 4 implies line_result(line_of(b, dir, ll), dir, ll)[j]
                == line_of(b, dir, ll)[j] by {
                let i = line_cell(dir, ll, j);
                assert(resolve(b, dir)[i] == line_result(
                    line_of(b, dir, line_idx(dir, i)),
                    dir,
                    line_idx(dir, i),
                )[line_pos(dir, i)]);
                assert(resolve(b, dir)[i] == b[i]);
            }
            assert(line_result(line_of(b, dir, ll), dir, ll) =~= line_of(b, dir, ll));
        }
    }
    if forall|ll: int|
        0 <= ll < 4 ==> #[trigger] line_result(line_of(b, dir, ll), dir, ll) == line_of(
            b,
            dir,
            ll,
        ) {
        assert forall|i: int| 0 <= i < 16 implies resolve(b, dir)[i] == b[i] by {
            let ll = line_idx(dir, i);
            assert(line_result(line_of(b, dir, ll), dir, ll) == line_of(b, dir, ll));
            assert(line_of(b, dir, ll)[line_pos(dir, i)] == b[i]);
        }
        assert(resolve(b, dir) =~= b);
    }
}

// ---------------------------------------------------------------------------
// Resolving one line of the board
// ---------------------------------------------------------------------------

/// The fixed data of one line's resolution: the direction and line, the
/// board and score as they stood when the line's processing began, and the
/// recycled list collected so far.
pub ghost struct LineWork {
    pub dir: Direction,
    pub l: int,
    pub b_in: Seq<Option<TileView>>,
    pub b_entry: Seq<Option<Tile>>,
    pub score0: int,
    pub rec0: Seq<usize>,
}

/// The standing assumptions of one line's resolution: a consistent board
/// whose line carries no merge snapshots and no duplicate identifiers.
pub open spec fn ctx_ok(w: LineWork) -> bool {
    &&& 0 <= w.l < 4
    &&& w.b_entry.len() == 16
    &&& w.b_in == bview(w.b_entry)
    &&& crate::model::board_ok(w.b_in)
    &&& 0 <= w.score0 <= u64::MAX
    &&& forall|q: int|
        0 <= q < 4 ==> (#[trigger] w.b_in[line_cell(w.dir, w.l, q)] matches Some(t) ==> t.merged
            is None)
    &&& forall|j1: int, j2: int|
        0 <= j1 < j2 < 4 ==> match (
            #[trigger] w.b_in[line_cell(w.dir, w.l, j1)],
            #[trigger] w.b_in[line_cell(w.dir, w.l, j2)],
        ) {
            (Some(a), Some(b)) => a.id != b.id,
            _ => true,
        }
}

/// The state of one line's resolution after its first `j` cells have been
/// processed: the compacted pairs stand at the edge, the gap up to `j` is
/// empty, everything else is untouched, and score, recycled identifiers,
/// identifier multiset and occupancy match the compacted prefix.
pub open spec fn line_inv(
    w: LineWork,
    b: Seq<Option<Tile>>,
    rec: Seq<usize>,
    sc: int,
    j: int,
    fill: int,
    moved: bool,
) -> bool {
    let cells0 = line_of(w.b_in, w.dir, w.l);
    let ps = pair_seq(tiles_of(cells0.take(j)));
    &&& b.len() == 16
    &&& 0 <= fill <= j <= 4
    &&& crate::model::board_ok(bview(b))
    &&& ps.len() == fill
    &&& forall|p: int|
        0 <= p < fill ==> #[trigger] bview(b)[line_cell(w.dir, w.l, p)] == Some(
            pair_result(ps[p], line_cell(w.dir, w.l, p) / 4, line_cell(w.dir, w.l, p) % 4),
        )
    &&& forall|p: int| fill <= p < j ==> #[trigger] bview(b)[line_cell(w.dir, w.l, p)] is None
    &&& forall|p: int|
        j <= p < 4 ==> #[trigger] b[line_cell(w.dir, w.l, p)] == w.b_entry[line_cell(
            w.dir,
            w.l,
            p,
        )]
    &&& forall|i: int| 0 <= i < 16 && line_idx(w.dir, i) != w.l ==> #[trigger] b[i] == w.b_entry[i]
    &&& sc == sat_add_u64(w.score0, pairs_score(ps))
    &&& crate::model::ids_int(rec) == crate::model::ids_int(w.rec0) + pairs_recycled(ps)
    &&& rec.len() == w.rec0.len() + pairs_recycled(ps).len()
    &&& ids_mset(bview(b)).add(idseq_mset(rec)) == ids_mset(w.b_in).add(idseq_mset(w.rec0))
    &&& occupied_total(bview(b)) + rec.len() == occupied_total(w.b_in) + w.rec0.len()
    &&& moved == (out_prefix(bview(b), w.dir, w.l, j) != out_prefix(w.b_in, w.dir, w.l, j))
}

/// Merges the tile taken from position `j` into the surviving tile at
/// position `fill - 1`, which must be open for a merge.
#[verifier::rlimit(100)]
fn merge_step(
    board: &mut Vec<Option<Tile>>,
    score: &mut u64,
    recycled: &mut Vec<usize>,
    dir: Direction,
    l: usize,
    j: usize,
    fill: usize,
    t: Tile,
    Ghost(w): Ghost<LineWork>,
    Ghost(bprev): Ghost<Seq<Option<Tile>>>,
)
    requires
        ctx_ok(w),
        dir == w.dir,
        l as int == w.l,
        j < 4,
        1 <= fill <= j,
        line_inv(w, bprev, old(recycled)@, *old(score) as int, j as int, fill as int, (out_prefix(
            bview(bprev),
            w.dir,
            w.l,
            j as int,
        ) != out_prefix(w.b_in, w.dir, w.l, j as int))),
        old(board)@ == bprev.update(line_cell(w.dir, w.l, j as int), None::<Tile>),
        bprev[line_cell(w.dir, w.l, j as int)] == Some(t),
        can_join(pair_seq(tiles_of(line_of(w.b_in, w.dir, w.l).take(j as int))), t@),
    ensures
        line_inv(
            w,
            final(board)@,
            final(recycled)@,
            *final(score) as int,
            j as int + 1,
            fill as int,
            true,
        ),
{
    let ghost cells0 = line_of(w.b_in, w.dir, w.l);
    let ghost tsj = tiles_of(cells0.take(j as int));
    let ghost psj = pair_seq(tsj);
    let ghost tv = t@;
    let ghost idx = line_cell(w.dir, w.l, j as int);
    proof {
        lemma_line_geometry(dir);
        lemma_prefix_tile_props(cells0, j as int);
        assert forall|q: int| 0 <= q < cells0.len() implies (#[trigger] cells0[q] matches Some(u)
            ==> {
            &&& u.merged is None
            &&& value_ok(u.value)
            &&& 0 <= u.id < 17
        }) by {
            assert(cells0[q] == w.b_in[line_cell(w.dir, w.l, q)]);
            assert(crate::model::cell_ok(
                w.b_in[line_cell(w.dir, w.l, q)],
                line_cell(w.dir, w.l, q),
            ));
        }
        assert(cells0.take(j as int + 1).drop_last() =~= cells0.take(j as int));
        assert(cells0.take(j as int + 1).last() == cells0[j as int]);
        assert(cells0[j as int] == w.b_in[idx]);
        assert(bview(bprev)[idx] == w.b_in[idx]);
        assert(tiles_of(cells0.take(j as int + 1)) == tsj.push(tv)) by {
            assert(tsj.push(tv).drop_last() =~= tsj);
        }
        assert(pair_seq(tsj.push(tv)) == pair_step(psj, tv)) by {
            assert(tsj.push(tv).drop_last() =~= tsj);
        }
        assert(bview(board@) =~= bview(bprev).update(idx, None::<TileView>));
        crate::model::lemma_ids_mset_update(bview(bprev), idx, None::<TileView>);
        lemma_pairs_recycled_update_last(psj, tv);
        assert(value_ok(tv.value));
        assert(is_pow2(2 * tv.value)) by {
            assert((2 * tv.value) % 2 == 0);
            assert((2 * tv.value) / 2 == tv.value);
        }
        assert(value_ok(2 * tv.value));
    }
    let fidx = cell_index(dir, l, fill - 1);
    let ghost bprev2 = board@;
    proof {
        assert(bview(bprev2)[fidx as int] == Some(
            pair_result(
                psj[fill - 1],
                line_cell(w.dir, w.l, fill - 1) / 4,
                line_cell(w.dir, w.l, fill - 1) % 4,
            ),
        )) by {
            assert(fidx as int != idx);
            assert(bview(bprev2)[fidx as int] == bview(bprev)[fidx as int]);
        }
    }
    let prev = take_cell(board, fidx).unwrap();
    proof {
        assert(bview(board@) =~= bview(bprev2).update(fidx as int, None::<TileView>));
        crate::model::lemma_ids_mset_update(bview(bprev2), fidx as int, None::<TileView>);
    }
    let ghost bprev_rec = recycled@;
    recycled.push(prev.id);
    let mut t2 = t;
    t2.value = t2.value * 2;
    t2.background_color = crate::colors::tile_colors(t2.value).0;
    t2.row = prev.row;
    t2.col = prev.col;
    t2.merged = Some(
        TileSnapshot {
            value: prev.value,
            id: prev.id,
            background_color: prev.background_color,
            text_color: prev.text_color,
            row: prev.row,
            col: prev.col,
        },
    );
    let add: u64 = t2.value as u64;
    let ghost bprev3 = board@;
    board.set(fidx, Some(t2));
    if *score <= u64::MAX - add {
        *score = *score + add;
    } else {
        *score = u64::MAX;
    }
    proof {
        let psj2 = pair_seq(tiles_of(cells0.take(j as int + 1)));
        let closed = MergePair { keeper: tv, absorbed: Some(psj[fill - 1].keeper) };
        let r = line_cell(w.dir, w.l, fill - 1) / 4;
        let cc = line_cell(w.dir, w.l, fill - 1) % 4;
        assert(psj.last() == psj[fill - 1]);
        assert(psj2 == psj.update(fill - 1, closed));
        assert(psj2.len() == fill as int);
        assert(pair_result(psj[fill - 1], r, cc).merged is None);
        assert(prev@ == pair_result(psj[fill - 1], r, cc));
        assert(t2@ == pair_result(closed, r, cc));
        assert(bview(board@) =~= bview(bprev3).update(fidx as int, Some(t2@)));
        crate::model::lemma_ids_mset_update(bview(bprev3), fidx as int, Some(t2@));
        // Placed zone.
        assert forall|p: int| 0 <= p < fill implies #[trigger] bview(board@)[line_cell(
            w.dir,
            w.l,
            p,
        )] == Some(
            pair_result(psj2[p], line_cell(w.dir, w.l, p) / 4, line_cell(w.dir, w.l, p) % 4),
        ) by {
            if p < fill - 1 {
                assert(psj2[p] == psj[p]);
                assert(line_cell(w.dir, w.l, p) != idx);
                assert(line_cell(w.dir, w.l, p) != fidx as int);
                assert(bview(board@)[line_cell(w.dir, w.l, p)] == bview(bprev)[line_cell(
                    w.dir,
                    w.l,
                    p,
                )]);
            }
        }
        // Gap and untouched zones.
        assert forall|p: int| fill <= p < j as int + 1 implies #[trigger] bview(board@)[line_cell(
            w.dir,
            w.l,
            p,
        )] is None by {
            if p < j as int {
                assert(line_cell(w.dir, w.l, p) != idx);
                assert(line_cell(w.dir, w.l, p) != fidx as int);
                assert(bview(board@)[line_cell(w.dir, w.l, p)] == bview(bprev)[line_cell(
                    w.dir,
                    w.l,
                    p,
                )]);
            } else {
                assert(line_cell(w.dir, w.l, p) == idx);
            }
        }
        // Score bookkeeping.
        assert(pairs_score(psj2) == pairs_score(psj) + 2 * tv.value);
        lemma_pairs_score_nonneg(tsj);
        assert(*score == sat_add_u64(w.score0, pairs_score(psj2)));
        // Recycled identifiers.
        assert(pairs_recycled(psj2) == pairs_recycled(psj) + seq![psj[fill - 1].keeper.id]);
        assert(prev.id as int == psj[fill - 1].keeper.id);
        assert forall|k: int|
            0 <= k < recycled@.len() implies crate::model::ids_int(recycled@)[k] == (
        crate::model::ids_int(w.rec0) + pairs_recycled(psj2))[k] by {
            if k < bprev_rec.len() {
                assert(recycled@[k] == bprev_rec[k]);
                assert(crate::model::ids_int(bprev_rec)[k] == (crate::model::ids_int(w.rec0)
                    + pairs_recycled(psj))[k]);
                if k >= w.rec0.len() {
                    assert(pairs_recycled(psj2)[k - w.rec0.len()] == pairs_recycled(psj)[k
                        - w.rec0.len()]);
                }
            } else {
                assert(recycled@[k] == prev.id);
                assert(pairs_recycled(psj2)[k - w.rec0.len()] == psj[fill - 1].keeper.id);
            }
        }
        assert(crate::model::ids_int(recycled@) =~= crate::model::ids_int(w.rec0) + pairs_recycled(
            psj2,
        ));
        // Identifier multiset bookkeeping: the absorbed identifier moves
        // from the board to the recycled list.
        assert(recycled@.drop_last() =~= bprev_rec);
        assert(idseq_mset(recycled@) == idseq_mset(bprev_rec).insert(prev.id as int));
        let bv3 = bview(bprev).update(idx, None).update(fidx as int, None).update(
            fidx as int,
            Some(t2@),
        );
        assert(bview(board@) =~= bv3);
        crate::model::lemma_ids_mset_merge(bview(bprev), idx, fidx as int, t2@);
        assert(bview(bprev)[fidx as int]->0.id == prev.id as int);
        assert(ids_mset(bv3).insert(prev.id as int) == ids_mset(bview(bprev)));
        assert forall|v: int|
            ids_mset(bview(board@)).add(idseq_mset(recycled@)).count(v) == ids_mset(w.b_in).add(
                idseq_mset(w.rec0),
            ).count(v) by {
            assert(ids_mset(bview(bprev)).add(idseq_mset(bprev_rec)).count(v) == ids_mset(
                w.b_in,
            ).add(idseq_mset(w.rec0)).count(v));
            assert(ids_mset(bv3).insert(prev.id as int).count(v) == ids_mset(bview(bprev)).count(
                v,
            ));
        }
        assert(ids_mset(bview(board@)).add(idseq_mset(recycled@)) =~= ids_mset(w.b_in).add(
            idseq_mset(w.rec0),
        ));
        assert(occupied_total(bview(board@)) + recycled@.len() == occupied_total(w.b_in)
            + w.rec0.len());
        // The closed slot differs from the input cell, whose snapshot is
        // clear, so the line has moved.
        let opb_new = out_prefix(bview(board@), w.dir, w.l, j as int + 1);
        let opi_new = out_prefix(w.b_in, w.dir, w.l, j as int + 1);
        assert(opb_new[fill - 1] == Some(pair_result(closed, r, cc)));
        assert(pair_result(closed, r, cc).merged is Some);
        assert(opi_new[fill - 1] == cells0[fill - 1]);
        assert(opb_new[fill - 1] != opi_new[fill - 1]);
        assert(opb_new != opi_new);
        assert(crate::model::board_ok(bview(board@)));
    }
}

/// Places the tile taken from position `j` into the next free slot of the
/// compacted prefix, position `fill`.
#[verifier::rlimit(100)]
fn place_step(
    board: &mut Vec<Option<Tile>>,
    dir: Direction,
    l: usize,
    j: usize,
    fill: usize,
    t: Tile,
    moved: bool,
    Ghost(w): Ghost<LineWork>,
    Ghost(bprev): Ghost<Seq<Option<Tile>>>,
    Ghost(rec): Ghost<Seq<usize>>,
    Ghost(sc): Ghost<int>,
) -> (moved2: bool)
    requires
        ctx_ok(w),
        dir == w.dir,
        l as int == w.l,
        j < 4,
        fill <= j,
        line_inv(w, bprev, rec, sc, j as int, fill as int, moved),
        old(board)@ == bprev.update(line_cell(w.dir, w.l, j as int), None::<Tile>),
        bprev[line_cell(w.dir, w.l, j as int)] == Some(t),
        !can_join(pair_seq(tiles_of(line_of(w.b_in, w.dir, w.l).take(j as int))), t@),
    ensures
        line_inv(w, final(board)@, rec, sc, j as int + 1, fill as int + 1, moved2),
        moved2 == moved || fill < j,
        moved ==> moved2,
{
    let ghost cells0 = line_of(w.b_in, w.dir, w.l);
    let ghost tsj = tiles_of(cells0.take(j as int));
    let ghost psj = pair_seq(tsj);
    let ghost tv = t@;
    let ghost idx = line_cell(w.dir, w.l, j as int);
    proof {
        lemma_line_geometry(dir);
        assert(cells0.take(j as int + 1).drop_last() =~= cells0.take(j as int));
        assert(cells0.take(j as int + 1).last() == cells0[j as int]);
        assert(cells0[j as int] == w.b_in[idx]);
        assert(bview(bprev)[idx] == w.b_in[idx]);
        assert(tiles_of(cells0.take(j as int + 1)) == tsj.push(tv)) by {
            assert(tsj.push(tv).drop_last() =~= tsj);
        }
        assert(pair_seq(tsj.push(tv)) == pair_step(psj, tv)) by {
            assert(tsj.push(tv).drop_last() =~= tsj);
        }
        assert(bview(board@) =~= bview(bprev).update(idx, None::<TileView>));
        crate::model::lemma_ids_mset_update(bview(bprev), idx, None::<TileView>);
    }
    let didx = cell_index(dir, l, fill);
    let moved2 = moved || didx != cell_index(dir, l, j);
    let mut t2 = t;
    t2.row = didx / 4;
    t2.col = didx % 4;
    let ghost bprev4 = board@;
    board.set(didx, Some(t2));
    proof {
        let psj2 = pair_seq(tiles_of(cells0.take(j as int + 1)));
        let opened = MergePair { keeper: tv, absorbed: None };
        assert(psj2 == psj.push(opened));
        assert(psj2.len() == fill as int + 1);
        assert(bview(board@) =~= bview(bprev4).update(didx as int, Some(t2@)));
        crate::model::lemma_ids_mset_update(bview(bprev4), didx as int, Some(t2@));
        let r = line_cell(w.dir, w.l, fill as int) / 4;
        let cc = line_cell(w.dir, w.l, fill as int) % 4;
        assert(t2@ == pair_result(opened, r, cc));
        assert forall|p: int| 0 <= p < fill as int + 1 implies #[trigger] bview(board@)[line_cell(
            w.dir,
            w.l,
            p,
        )] == Some(
            pair_result(psj2[p], line_cell(w.dir, w.l, p) / 4, line_cell(w.dir, w.l, p) % 4),
        ) by {
            if p < fill as int {
                assert(psj2[p] == psj[p]);
                assert(line_cell(w.dir, w.l, p) != idx);
                assert(line_cell(w.dir, w.l, p) != didx as int);
                assert(bview(board@)[line_cell(w.dir, w.l, p)] == bview(bprev)[line_cell(
                    w.dir,
                    w.l,
                    p,
                )]);
            }
        }
        assert forall|p: int| fill as int + 1 <= p < j as int + 1 implies #[trigger] bview(
            board@,
        )[line_cell(w.dir, w.l, p)] is None by {
            if p < j as int {
                assert(line_cell(w.dir, w.l, p) != idx);
                assert(line_cell(w.dir, w.l, p) != didx as int);
                assert(bview(board@)[line_cell(w.dir, w.l, p)] == bview(bprev)[line_cell(
                    w.dir,
                    w.l,
                    p,
                )]);
            } else {
                assert(line_cell(w.dir, w.l, p) == idx);
                assert(idx != didx as int);
            }
        }
        assert(pairs_score(psj2) == pairs_score(psj)) by {
            assert(psj2.drop_last() =~= psj);
        }
        assert(pairs_recycled(psj2) =~= pairs_recycled(psj)) by {
            assert(psj2.drop_last() =~= psj);
        }
        assert forall|k: int|
            0 <= k < rec.len() implies crate::model::ids_int(rec)[k] == (crate::model::ids_int(
            w.rec0,
        ) + pairs_recycled(psj2))[k] by {
            assert(crate::model::ids_int(rec)[k] == (crate::model::ids_int(w.rec0)
                + pairs_recycled(psj))[k]);
            if k >= w.rec0.len() {
                assert(pairs_recycled(psj2)[k - w.rec0.len()] == pairs_recycled(psj)[k
                    - w.rec0.len()]);
            }
        }
        assert(crate::model::ids_int(rec) =~= crate::model::ids_int(w.rec0) + pairs_recycled(
            psj2,
        ));
        let bv2 = bview(bprev).update(idx, None).update(didx as int, Some(t2@));
        assert(bview(board@) =~= bv2);
        crate::model::lemma_ids_mset_move(bview(bprev), idx, didx as int, t2@);
        assert(ids_mset(bv2) == ids_mset(bview(bprev)));
        assert forall|v: int|
            ids_mset(bview(board@)).add(idseq_mset(rec)).count(v) == ids_mset(w.b_in).add(
                idseq_mset(w.rec0),
            ).count(v) by {
            assert(ids_mset(bview(bprev)).add(idseq_mset(rec)).count(v) == ids_mset(w.b_in).add(
                idseq_mset(w.rec0),
            ).count(v));
        }
        assert(ids_mset(bview(board@)).add(idseq_mset(rec)) =~= ids_mset(w.b_in).add(
            idseq_mset(w.rec0),
        ));
        assert(occupied_total(bview(board@)) + rec.len() == occupied_total(w.b_in) + w.rec0.len());
        // The moved flag tracks whether the growing output prefix differs
        // from the input.
        let opb_new = out_prefix(bview(board@), w.dir, w.l, j as int + 1);
        let opi_new = out_prefix(w.b_in, w.dir, w.l, j as int + 1);
        let opb_old = out_prefix(bview(bprev), w.dir, w.l, j as int);
        let opi_old = out_prefix(w.b_in, w.dir, w.l, j as int);
        if didx as int == idx {
            assert(fill as int == j as int);
            assert(t2@ == tv) by {
                assert(crate::model::cell_ok(w.b_in[idx], idx));
            }
            assert(opb_new[j as int] == opi_new[j as int]);
            if moved {
                assert(opb_old != opi_old);
                assert(!(opb_old =~= opi_old));
                let p = choose|p: int| 0 <= p < j && opb_old[p] != opi_old[p];
                assert(opb_new[p] == opb_old[p]);
                assert(opi_new[p] == opi_old[p]);
                assert(opb_new != opi_new);
            } else {
                assert forall|p: int| 0 <= p < j as int + 1 implies opb_new[p] == opi_new[p] by {
                    if p < j as int {
                        assert(opb_old[p] == opi_old[p]);
                        assert(opb_new[p] == opb_old[p]);
                        assert(opi_new[p] == opi_old[p]);
                    }
                }
                assert(opb_new =~= opi_new);
            }
        } else {
            assert(fill < j);
            assert(opb_new[fill as int] == Some(t2@));
            match opi_new[fill as int] {
                Some(u) => {
                    assert(u.id != tv.id) by {
                        assert(cells0[fill as int] == w.b_in[line_cell(w.dir, w.l, fill as int)]);
                    }
                    assert(opb_new[fill as int] != opi_new[fill as int]);
                },
                None => {
                    assert(opb_new[fill as int] != opi_new[fill as int]);
                },
            }
            assert(opb_new != opi_new);
        }
        assert(crate::model::board_ok(bview(board@)));
    }
    moved2
}

/// Slides and merges the tiles of line `l` toward the target edge of
/// `dir`, updating the score and collecting the identifiers freed by
/// merges.  Returns whether any tile of the line moved or merged.
#[verifier::rlimit(100)]
fn resolve_line(
    board: &mut Vec<Option<Tile>>,
    score: &mut u64,
    recycled: &mut Vec<usize>,
    dir: Direction,
    l: usize,
) -> (moved: bool)
    requires
        l < 4,
        old(board)@.len() == 16,
        crate::model::board_ok(bview(old(board)@)),
        forall|j: int|
            0 <= j < 4 ==> (#[trigger] bview(old(board)@)[line_cell(dir, l as int, j)] matches Some(
                t,
            ) ==> t.merged is None),
        forall|j1: int, j2: int|
            0 <= j1 < j2 < 4 ==> match (
                #[trigger] bview(old(board)@)[line_cell(dir, l as int, j1)],
                #[trigger] bview(old(board)@)[line_cell(dir, l as int, j2)],
            ) {
                (Some(a), Some(b)) => a.id != b.id,
                _ => true,
            },
    ensures
        final(board)@.len() == 16,
        crate::model::board_ok(bview(final(board)@)),
        forall|j: int|
            0 <= j < 4 ==> #[trigger] bview(final(board)@)[line_cell(dir, l as int, j)]
                == line_result(line_of(bview(old(board)@), dir, l as int), dir, l as int)[j],
        forall|i: int|
            0 <= i < 16 && line_idx(dir, i) != l ==> final(board)@[i] == #[trigger] old(board)@[i],
        *final(score) == sat_add_u64(
            *old(score) as int,
            line_score(line_of(bview(old(board)@), dir, l as int)),
        ),
        crate::model::ids_int(final(recycled)@) == crate::model::ids_int(old(recycled)@)
            + line_recycled(line_of(bview(old(board)@), dir, l as int)),
        final(recycled)@.len() == old(recycled)@.len() + line_recycled(
            line_of(bview(old(board)@), dir, l as int),
        ).len(),
        ids_mset(bview(final(board)@)).add(idseq_mset(final(recycled)@)) == ids_mset(
            bview(old(board)@),
        ).add(idseq_mset(old(recycled)@)),
        occupied_total(bview(final(board)@)) + final(recycled)@.len() == occupied_total(
            bview(old(board)@),
        ) + old(recycled)@.len(),
        moved == (line_result(line_of(bview(old(board)@), dir, l as int), dir, l as int)
            != line_of(bview(old(board)@), dir, l as int)),
{
    let ghost w = LineWork {
        dir,
        l: l as int,
        b_in: bview(board@),
        b_entry: board@,
        score0: *score as int,
        rec0: recycled@,
    };
    let ghost cells0 = line_of(w.b_in, w.dir, w.l);
    proof {
        lemma_line_geometry(dir);
        assert(cells0.take(0) =~= Seq::<Option<TileView>>::empty());
        assert(out_prefix(bview(board@), w.dir, w.l, 0) =~= out_prefix(w.b_in, w.dir, w.l, 0));
        assert(line_inv(w, board@, recycled@, *score as int, 0, 0, false));
    }
    let mut fill: usize = 0;
    let mut moved = false;
    let mut j: usize = 0;
    while j < 4
        invariant
            ctx_ok(w),
            dir == w.dir,
            l as int == w.l,
            j <= 4,
            fill <= j,
            w.b_entry == old(board)@,
            w.score0 == *old(score) as int,
            w.rec0 == old(recycled)@,
            line_inv(w, board@, recycled@, *score as int, j as int, fill as int, moved),
        decreases 4 - j,
    {
        proof {
            lemma_line_geometry(dir);
            lemma_prefix_tile_props(cells0_of(w), j as int);
        }
        let ghost tsj = tiles_of(cells0_of(w).take(j as int));
        let ghost psj = pair_seq(tsj);
        let ghost bprev = board@;
        let idx = cell_index(dir, l, j);
        proof {
            assert(cells0_of(w).take(j as int + 1).drop_last() =~= cells0_of(w).take(j as int));
            assert(cells0_of(w).take(j as int + 1).last() == cells0_of(w)[j as int]);
            assert(cells0_of(w)[j as int] == w.b_in[idx as int]);
            assert(board@[idx as int] == w.b_entry[idx as int]);
            assert(bview(bprev)[idx as int] == w.b_in[idx as int]);
        }
        let c = take_cell(board, idx);
        match c {
            None => {
                proof {
                    assert(tiles_of(cells0_of(w).take(j as int + 1)) == tsj);
                    assert(bview(bprev)[idx as int] is None);
                    assert(board@ =~= bprev);
                    let opb_new = out_prefix(bview(board@), w.dir, w.l, j as int + 1);
                    let opi_new = out_prefix(w.b_in, w.dir, w.l, j as int + 1);
                    let opb_old = out_prefix(bview(bprev), w.dir, w.l, j as int);
                    let opi_old = out_prefix(w.b_in, w.dir, w.l, j as int);
                    assert(opb_new[j as int] == opi_new[j as int]);
                    if moved {
                        assert(opb_old != opi_old);
                        assert(!(opb_old =~= opi_old));
                        let p = choose|p: int| 0 <= p < j && opb_old[p] != opi_old[p];
                        assert(opb_new[p] == opb_old[p]);
                        assert(opi_new[p] == opi_old[p]);
                        assert(opb_new != opi_new);
                    } else {
                        assert forall|p: int| 0 <= p < j as int + 1 implies opb_new[p] == opi_new[p]
                            by {
                            if p < j as int {
                                assert(opb_old[p] == opi_old[p]);
                                assert(opb_new[p] == opb_old[p]);
                                assert(opi_new[p] == opi_old[p]);
                            }
                        }
                        assert(opb_new =~= opi_new);
                    }
                    assert(line_inv(
                        w,
                        board@,
                        recycled@,
                        *score as int,
                        j as int + 1,
                        fill as int,
                        moved,
                    ));
                }
            },
            Some(t) => {
                let mut do_merge = false;
                if fill > 0 {
                    let fidx = cell_index(dir, l, fill - 1);
                    proof {
                        assert(bview(board@)[fidx as int] == bview(bprev)[fidx as int]);
                        assert(bview(bprev)[fidx as int] == Some(
                            pair_result(
                                psj[fill - 1],
                                line_cell(w.dir, w.l, fill - 1) / 4,
                                line_cell(w.dir, w.l, fill - 1) % 4,
                            ),
                        ));
                    }
                    let prev_ref = crate::game::cell_ref(board, fidx);
                    match prev_ref {
                        Some(p) => {
                            if p.value == t.value && p.merged.is_none() && t.value
                                <= 0x4000_0000 {
                                do_merge = true;
                            }
                        },
                        None => {
                            proof {
                                assert(false);
                            }
                        },
                    }
                }
                proof {
                    lemma_prefix_tile_props(cells0_of(w), j as int);
                    if do_merge {
                        assert(psj.last() == psj[fill - 1]);
                        assert(can_join(psj, t@));
                    } else {
                        assert(!can_join(psj, t@)) by {
                            if fill > 0 {
                                let pr = pair_result(
                                    psj[fill - 1],
                                    line_cell(w.dir, w.l, fill - 1) / 4,
                                    line_cell(w.dir, w.l, fill - 1) % 4,
                                );
                                if psj[fill - 1].absorbed is None {
                                    assert(pr.value == psj[fill - 1].keeper.value);
                                    assert(pr.merged == psj[fill - 1].keeper.merged);
                                    assert(tsj.contains(psj[fill - 1].keeper)) by {
                                        lemma_pair_seq_members(tsj);
                                        assert(psj.last() == psj[fill - 1]);
                                    }
                                }
                            }
                        }
                    }
                }
                if do_merge {
                    merge_step(board, score, recycled, dir, l, j, fill, t, Ghost(w), Ghost(bprev));
                    moved = true;
                } else {
                    moved = place_step(
                        board,
                        dir,
                        l,
                        j,
                        fill,
                        t,
                        moved,
                        Ghost(w),
                        Ghost(bprev),
                        Ghost(recycled@),
                        Ghost(*score as int),
                    );
                    fill = fill + 1;
                }
            },
        }
        j = j + 1;
    }
    proof {
        lemma_line_geometry(dir);
        assert(cells0.take(4) =~= cells0);
        let ps = pair_seq(tiles_of(cells0));
        let lr = line_result(cells0, dir, l as int);
        assert forall|p: int| 0 <= p < 4 implies #[trigger] bview(board@)[line_cell(
            dir,
            l as int,
            p,
        )] == lr[p] by {
            if p < fill {
                assert(lr[p] == Some(
                    pair_result(
                        ps[p],
                        line_cell(dir, l as int, p) / 4,
                        line_cell(dir, l as int, p) % 4,
                    ),
                ));
            } else {
                assert(lr[p] is None);
            }
        }
        let opb = out_prefix(bview(board@), dir, l as int, 4);
        let opi = out_prefix(w.b_in, dir, l as int, 4);
        assert(opb =~= lr);
        assert(opi =~= cells0);
        assert(moved == (lr != cells0));
    }
    moved
}

/// The input cells of the line a [`LineWork`] describes.
pub open spec fn cells0_of(w: LineWork) -> Seq<Option<TileView>> {
    line_of(w.b_in, w.dir, w.l)
}


// ---------------------------------------------------------------------------
// The move-resolution entry point
// ---------------------------------------------------------------------------

/// The view of a freshly spawned tile with the given value and identifier
/// at cell `i`.
pub open spec fn spawn_tile_view(value: int, id: int, i: int) -> TileView {
    TileView {
        value,
        id,
        background_color: crate::colors::bg_color_spec(value),
        text_color: crate::colors::text_color_spec(),
        row: i / 4,
        col: i % 4,
        merged: None,
    }
}

/// The board `b2` is the resolved board `rb` with one fresh tile of value
/// 2 or 4 spawned on a cell that resolution left empty.
pub open spec fn spawned_into(
    rb: Seq<Option<TileView>>,
    b2: Seq<Option<TileView>>,
    id: int,
) -> bool {
    exists|i: int, v: int|
        {
            &&& 0 <= i < 16
            &&& (v == 2 || v == 4)
            &&& rb[i] is None
            &&& b2 == #[trigger] rb.update(i, Some(spawn_tile_view(v, id, i)))
        }
}

impl crate::Game {
    /// Receives the player's input and slides the tiles in the requested
    /// direction.
    ///
    /// Merge snapshots are cleared first.  If the token is not a direction,
    /// or no tile can move in that direction, the move is rejected and
    /// nothing else changes.  Otherwise every line is compacted toward the
    /// direction's edge, the score grows by each merge's doubled value, the
    /// identifiers freed by merges return to the pool only after the
    /// spawned tile has drawn a fresh one, and a new tile appears on a free
    /// cell.
    #[verifier::rlimit(100)]
    pub fn receive_input(&mut self, input: &str) -> (res: InputResult)
        requires
            old(self).wf(),
        ensures
            final(self).wf(),
            final(self).new_tile_params == old(self).new_tile_params,
            final(self).win_target == old(self).win_target,
            ({
                let b0 = crate::model::clear_merged(bview(old(self).board@));
                let d = spec_parse_direction(input@);
                match res {
                    InputResult::Rejected(_) => {
                        &&& (d matches Some(dd) ==> resolve(b0, dd) == b0)
                        &&& bview(final(self).board@) == b0
                        &&& final(self).score == old(self).score
                        &&& final(self).id_list == old(self).id_list
                    },
                    InputResult::Committed(new_id, tiles, won) => {
                        &&& d is Some
                        &&& resolve(b0, d->0) != b0
                        &&& old(self).id_list@.len() > 0
                        &&& new_id == old(self).id_list@[0]
                        &&& spawned_into(
                            resolve(b0, d->0),
                            bview(final(self).board@),
                            new_id as int,
                        )
                        &&& final(self).score as int == sat_add_u64(
                            old(self).score as int,
                            move_score(b0, d->0),
                        )
                        &&& crate::model::ids_int(final(self).id_list@) == crate::model::ids_int(
                            old(self).id_list@.skip(1),
                        ) + move_recycled(b0, d->0)
                        &&& won == crate::model::any_tile_at_least(
                            bview(final(self).board@),
                            old(self).win_target as int,
                        )
                        &&& crate::model::views_of(tiles@) == tiles_of(bview(final(self).board@))
                    },
                }
            }),
    {
        proof {
            crate::model::lemma_clear_merged_facts(bview(old(self).board@));
        }
        self.reset_merged_flags();
        let ghost b0 = bview(self.board@);
        let ghost pool0 = self.id_list@;
        let ghost score0 = self.score;
        proof {
            assert(ids_mset(b0).add(idseq_mset(pool0)) == crate::model::range_mset(17));
            crate::model::lemma_distinct_from_mset(b0, idseq_mset(pool0));
        }
        let dir_opt = parse_direction(input);
        match dir_opt {
            None => InputResult::Rejected(crate::InvalidMove),
            Some(dir) => {
                let mut recycled: Vec<usize> = Vec::new();
                let mut moved = false;
                let mut l: usize = 0;
                proof {
                    lemma_line_geometry(dir);
                    assert(ids_mset(bview(self.board@)).add(idseq_mset(recycled@)) =~= ids_mset(
                        b0,
                    ));
                }
                while l < 4
                    invariant
                        l <= 4,
                        self.board@.len() == 16,
                        b0.len() == 16,
                        crate::model::board_ok(b0),
                        crate::model::flags_clear(b0),
                        crate::model::ids_distinct(b0),
                        crate::model::board_ok(bview(self.board@)),
                        self.id_list == old(self).id_list,
                        self.id_list@ == pool0,
                        self.new_tile_params == old(self).new_tile_params,
                        self.win_target == old(self).win_target,
                        forall|i: int|
                            0 <= i < 16 && line_idx(dir, i) >= l ==> #[trigger] bview(
                                self.board@,
                            )[i] == b0[i],
                        forall|i: int|
                            0 <= i < 16 && line_idx(dir, i) < l ==> #[trigger] bview(
                                self.board@,
                            )[i] == line_result(
                                line_of(b0, dir, line_idx(dir, i)),
                                dir,
                                line_idx(dir, i),
                            )[line_pos(dir, i)],
                        self.score as int == sat_add_u64(
                            score0 as int,
                            move_score_upto(b0, dir, l as int),
                        ),
                        move_score_upto(b0, dir, l as int) >= 0,
                        crate::model::ids_int(recycled@) == move_recycled_upto(b0, dir, l as int),
                        recycled@.len() == move_recycled_upto(b0, dir, l as int).len(),
                        ids_mset(bview(self.board@)).add(idseq_mset(recycled@)) == ids_mset(b0),
                        occupied_total(bview(self.board@)) + recycled@.len() == occupied_total(b0),
                        moved <==> exists|ll: int|
                            0 <= ll < l && #[trigger] line_result(line_of(b0, dir, ll), dir, ll)
                                != line_of(b0, dir, ll),
                    decreases 4 - l,
                {
                    proof {
                        lemma_line_geometry(dir);
                        assert forall|q: int| 0 <= q < 4 implies #[trigger] bview(self.board@)[
                            line_cell(dir, l as int, q)
                        ] == b0[line_cell(dir, l as int, q)] by {
                            assert(line_idx(dir, line_cell(dir, l as int, q)) == l as int);
                        }
                    }
                    let ghost bpre = self.board@;
                    let ghost recpre = recycled@;
                    let ghost scorepre = self.score;
                    let lm = resolve_line(&mut self.board, &mut self.score, &mut recycled, dir, l);
                    moved = moved || lm;
                    proof {
                        lemma_line_geometry(dir);
                        let cl = line_of(b0, dir, l as int);
                        assert(line_of(bview(bpre), dir, l as int) =~= cl);
                        assert forall|i: int| 0 <= i < 16 && line_idx(dir, i) != l as int implies
                            #[trigger] bview(self.board@)[i] == bview(bpre)[i] by {
                            assert(self.board@[i] == bpre[i]);
                        }
                        // Score: fold the line's score into the running total.
                        assert forall|q: int| 0 <= q < cl.len() implies (#[trigger] cl[q] matches
                            Some(t) ==> {
                            &&& t.merged is None
                            &&& value_ok(t.value)
                            &&& 0 <= t.id < 17
                        }) by {
                            assert(cl[q] == b0[line_cell(dir, l as int, q)]);
                            assert(crate::model::cell_ok(
                                b0[line_cell(dir, l as int, q)],
                                line_cell(dir, l as int, q),
                            ));
                        }
                        lemma_prefix_tile_props(cl, 4);
                        assert(cl.take(4) =~= cl);
                        lemma_pairs_score_nonneg(tiles_of(cl));
                        assert(move_score_upto(b0, dir, l as int + 1) == move_score_upto(
                            b0,
                            dir,
                            l as int,
                        ) + line_score(cl));
                        assert(self.score as int == sat_add_u64(
                            score0 as int,
                            move_score_upto(b0, dir, l as int + 1),
                        ));
                        // Recycled identifiers: append the line's batch.
                        assert(crate::model::ids_int(recycled@) =~= move_recycled_upto(
                            b0,
                            dir,
                            l as int + 1,
                        ));
                        // Moved flag.
                        assert(lm == (line_result(cl, dir, l as int) != cl));
                        if moved {
                            if lm {
                                assert(line_result(line_of(b0, dir, l as int), dir, l as int)
                                    != line_of(b0, dir, l as int));
                            }
                        }
                    }
                    l = l + 1;
                }
                proof {
                    lemma_line_geometry(dir);
                    assert forall|i: int| 0 <= i < 16 implies #[trigger] bview(self.board@)[i]
                        == resolve(b0, dir)[i] by {
                        assert(line_idx(dir, i) < 4);
                    }
                    assert(bview(self.board@) =~= resolve(b0, dir));
                    lemma_resolve_noop(b0, dir);
                }
                if moved {
                    proof {
                        crate::model::lemma_occupied_count_bounds(b0, 16);
                        if recycled@.len() == 0 {
                            let ll = choose|ll: int|
                                0 <= ll < 4 && #[trigger] line_result(
                                    line_of(b0, dir, ll),
                                    dir,
                                    ll,
                                ) != line_of(b0, dir, ll);
                            let cl = line_of(b0, dir, ll);
                            assert(line_recycled(cl).len() == 0) by {
                                assert(move_recycled_upto(b0, dir, 4).len() == 0);
                                lemma_recycled_upto_lens(b0, dir, 4);
                            }
                            assert(exists|q: int| 0 <= q < 4 && (#[trigger] cl[q]) is None) by {
                                if forall|q: int| 0 <= q < 4 ==> (#[trigger] cl[q]) is Some {
                                    assert forall|q: int| 0 <= q < 4 implies crate::model::cell_ok(
                                        #[trigger] cl[q],
                                        line_cell(dir, ll, q),
                                    ) by {
                                        assert(cl[q] == b0[line_cell(dir, ll, q)]);
                                    }
                                    lemma_full_line_unchanged(cl, dir, ll);
                                    assert(false);
                                }
                            }
                            let q = choose|q: int| 0 <= q < 4 && (#[trigger] cl[q]) is None;
                            crate::model::lemma_occupied_not_full(b0, line_cell(dir, ll, q));
                        }
                        assert(occupied_total(bview(self.board@)) < 16);
                    }
                    let rc = self.get_random_free_slot().unwrap();
                    proof {
                        crate::model::lemma_idseq_mset_len(pool0);
                        crate::model::lemma_ids_count_len(b0, 16);
                        crate::model::lemma_range_mset_len(17);
                        assert(pool0.len() == 17 - occupied_total(b0));
                    }
                    let new_tile_id = self.get_id().unwrap();
                    let ghost rec_final = recycled@;
                    proof {
                        crate::model::lemma_idseq_mset_skip1(pool0);
                        crate::model::lemma_idseq_mset_member(pool0, 0);
                        crate::model::lemma_range_mset_count(17, pool0[0] as int);
                        assert(crate::model::range_mset(17).count(pool0[0] as int) == ids_mset(
                            b0,
                        ).count(pool0[0] as int) + idseq_mset(pool0).count(pool0[0] as int));
                        assert(new_tile_id < 17);
                    }
                    self.recycle_ids(recycled);
                    let new_tile_value = self.generate_tile_value();
                    proof {
                        crate::game::lemma_small_pow2();
                        crate::model::lemma_idseq_mset_concat(pool0.skip(1), rec_final);
                        let rb = bview(self.board@);
                        assert forall|v: int|
                            ids_mset(rb).add(idseq_mset(self.id_list@).insert(
                                new_tile_id as int,
                            )).count(v) == crate::model::range_mset(17).count(v) by {
                            assert(ids_mset(rb).add(idseq_mset(rec_final)).count(v) == ids_mset(
                                b0,
                            ).count(v));
                            assert(ids_mset(b0).add(idseq_mset(pool0)).count(v)
                                == crate::model::range_mset(17).count(v));
                            assert(idseq_mset(pool0).count(v) == idseq_mset(pool0.skip(1)).insert(
                                pool0[0] as int,
                            ).count(v));
                            assert(idseq_mset(self.id_list@).count(v) == idseq_mset(
                                pool0.skip(1),
                            ).add(idseq_mset(rec_final)).count(v));
                        }
                        assert(ids_mset(bview(self.board@)).add(
                            idseq_mset(self.id_list@).insert(new_tile_id as int),
                        ) =~= crate::model::range_mset(17));
                    }
                    let ghost rb = bview(self.board@);
                    self.place_new_tile(new_tile_value, new_tile_id, rc.0, rc.1);
                    proof {
                        let spawn_cell = crate::model::cell_of(rc.0 as int, rc.1 as int);
                        assert(bview(self.board@) == rb.update(
                            spawn_cell,
                            Some(spawn_tile_view(
                                new_tile_value as int,
                                new_tile_id as int,
                                spawn_cell,
                            )),
                        ));
                        assert(spawned_into(
                            resolve(b0, dir),
                            bview(self.board@),
                            new_tile_id as int,
                        ));
                        // The final pool holds the remaining identifiers
                        // followed by the ones this turn's merges freed.
                        assert forall|k: int|
                            0 <= k < self.id_list@.len() implies crate::model::ids_int(
                            self.id_list@,
                        )[k] == (crate::model::ids_int(pool0.skip(1)) + move_recycled(
                            b0,
                            dir,
                        ))[k] by {
                            if k < pool0.skip(1).len() {
                                assert(self.id_list@[k] == pool0.skip(1)[k]);
                            } else {
                                assert(self.id_list@[k] == rec_final[k - pool0.skip(1).len()]);
                                assert(crate::model::ids_int(rec_final)[k - pool0.skip(1).len()]
                                    == move_recycled(b0, dir)[k - pool0.skip(1).len()]);
                            }
                        }
                        assert(crate::model::ids_int(self.id_list@) =~= crate::model::ids_int(
                            pool0.skip(1),
                        ) + move_recycled(b0, dir));
                    }
                    let won = self.any_tile_reaches(self.win_target);
                    let tiles = self.get_tiles();
                    InputResult::Committed(new_tile_id, tiles, won)
                } else {
                    proof {
                        assert forall|ll: int| 0 <= ll < 4 implies #[trigger] line_result(
                            line_of(b0, dir, ll),
                            dir,
                            ll,
                        ) == line_of(b0, dir, ll) by {}
                        assert(resolve(b0, dir) == b0);
                        assert(bview(self.board@) == b0);
                        // No line changed, so no score was earned and no
                        // identifier was freed.
                        assert forall|ll: int| 0 <= ll < 4 implies line_score(
                            #[trigger] line_of(b0, dir, ll),
                        ) == 0 by {
                            let cl = line_of(b0, dir, ll);
                            assert forall|q: int| 0 <= q < 4 implies (#[trigger] cl[q] matches Some(
                                t,
                            ) ==> t.merged is None) by {
                                assert(cl[q] == b0[line_cell(dir, ll, q)]);
                            }
                            lemma_unchanged_line_zero(cl, dir, ll);
                        }
                        assert(move_score_upto(b0, dir, 4) == 0) by {
                            reveal_with_fuel(move_score_upto, 5);
                        }
                        assert(self.score == score0);
                        assert(ids_mset(bview(self.board@)).add(idseq_mset(recycled@)) == ids_mset(
                            b0,
                        ));
                        assert forall|v: int|
                            ids_mset(bview(self.board@)).add(idseq_mset(self.id_list@)).count(v)
                                == crate::model::range_mset(17).count(v) by {
                            assert(idseq_mset(recycled@).count(v) == 0) by {
                                crate::model::lemma_idseq_mset_len(recycled@);
                                assert(recycled@.len() == 0);
                                assert(idseq_mset(recycled@) =~= Multiset::<int>::empty()) by {
                                    crate::model::lemma_idseq_mset_len(recycled@);
                                }
                            }
                        }
                        assert(ids_mset(bview(self.board@)).add(idseq_mset(self.id_list@))
                            =~= crate::model::range_mset(17));
                    }
                    InputResult::Rejected(crate::InvalidMove)
                }
            },
        }
    }
}

/// The lengths of the per-line recycled batches sum to the whole move's.
proof fn lemma_recycled_upto_lens(b: Seq<Option<TileView>>, dir: Direction, l: int)
    requires
        0 <= l,
    ensures
        forall|ll: int|
            0 <= ll < l ==> line_recycled(#[trigger] line_of(b, dir, ll)).len()
                <= move_recycled_upto(b, dir, l).len(),
    decreases l,
{
    if l > 0 {
        lemma_recycled_upto_lens(b, dir, l - 1);
    }
}

} // verus!
