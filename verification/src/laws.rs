//! Laws of the engine, stated and proved against the public contracts.

use vstd::prelude::*;
use vstd::multiset::Multiset;

use crate::Direction;
use crate::Game;
use crate::model::TileView;
use crate::model::bview;
use crate::model::ids_distinct;
use crate::model::ids_mset;
use crate::model::idseq_mset;
use crate::model::is_terminal;
use crate::model::range_mset;
use crate::model::tiles_of;
use crate::moves::MergePair;
use crate::moves::line_cell;
use crate::moves::line_of;
use crate::moves::line_recycled;
use crate::moves::line_result;
use crate::moves::line_score;
use crate::moves::move_recycled;
use crate::moves::move_recycled_upto;
use crate::moves::pair_seq;
use crate::moves::pairs_recycled;
use crate::moves::resolve;

verus! {

broadcast use vstd::multiset::group_multiset_axioms;

/// Identifier uniqueness: in a well-formed game, no two simultaneously
/// occupied cells share a tile identifier.
pub proof fn lemma_ids_unique(g: Game)
    requires
        g.wf(),
    ensures
        ids_distinct(bview(g.board@)),
{
    crate::model::lemma_distinct_from_mset(bview(g.board@), idseq_mset(g.id_list@));
}

/// No double merge: when a line holds four tiles of one value, compaction
/// closes two separate slots — the first pair and the second pair — and
/// never chains them into a single tile of four times the value.
#[verifier::rlimit(100)]
pub proof fn lemma_no_double_merge(
    t1: TileView,
    t2: TileView,
    t3: TileView,
    t4: TileView,
    v: int,
    dir: Direction,
    l: int,
)
    requires
        t1.value == v && t2.value == v && t3.value == v && t4.value == v,
        t1.merged is None && t2.merged is None && t3.merged is None && t4.merged is None,
        2 <= v <= 0x4000_0000,
    ensures
        ({
            let cells = seq![Some(t1), Some(t2), Some(t3), Some(t4)];
            let out = line_result(cells, dir, l);
            &&& out[0] matches Some(a) && a.value == 2 * v && a.id == t2.id && a.merged is Some
            &&& out[1] matches Some(b) && b.value == 2 * v && b.id == t4.id && b.merged is Some
            &&& out[2] is None
            &&& out[3] is None
        }),
{
    let cells = seq![Some(t1), Some(t2), Some(t3), Some(t4)];
    let ts = tiles_of(cells);
    lemma_four_tiles(t1, t2, t3, t4);
    let p1 = seq![MergePair { keeper: t1, absorbed: None }];
    assert(pair_seq(ts.take(1)) =~= p1) by {
        assert(ts.take(1) =~= seq![t1]);
        assert(pair_seq(Seq::<TileView>::empty()) =~= Seq::<MergePair>::empty());
        assert(seq![t1].drop_last() =~= Seq::<TileView>::empty());
        assert(pair_seq(seq![t1]) =~= p1);
    }
    let p2 = seq![MergePair { keeper: t2, absorbed: Some(t1) }];
    assert(pair_seq(ts.take(2)) =~= p2) by {
        assert(ts.take(2).drop_last() =~= ts.take(1));
        assert(crate::moves::can_join(p1, t2));
        assert(crate::moves::pair_step(p1, t2) =~= p2);
    }
    let p3 = p2.push(MergePair { keeper: t3, absorbed: None });
    assert(pair_seq(ts.take(3)) =~= p3) by {
        assert(ts.take(3).drop_last() =~= ts.take(2));
        assert(!crate::moves::can_join(p2, t3));
    }
    let p4 = p2.push(MergePair { keeper: t4, absorbed: Some(t3) });
    assert(pair_seq(ts) =~= p4) by {
        assert(ts.take(4) =~= ts);
        assert(ts.drop_last() =~= ts.take(3));
        assert(p3.last() == (MergePair { keeper: t3, absorbed: None }));
        assert(crate::moves::can_join(p3, t4));
        assert(crate::moves::pair_step(p3, t4) =~= p4);
    }
    assert(pair_seq(ts).len() == 2);
    assert(pair_seq(ts)[0] == p2[0]);
    assert(pair_seq(ts)[1] == (MergePair { keeper: t4, absorbed: Some(t3) }));
}

/// Score accounting kernel: merging two tiles of value `v` earns exactly
/// `2 * v`.
pub proof fn lemma_merge_score(t1: TileView, t2: TileView, v: int)
    requires
        t1.value == v && t2.value == v,
        t1.merged is None && t2.merged is None,
        2 <= v <= 0x4000_0000,
    ensures
        line_score(seq![Some(t1), Some(t2), None, None]) == 2 * v,
{
    let cells = seq![Some(t1), Some(t2), None::<TileView>, None::<TileView>];
    let ts = tiles_of(cells);
    assert(tiles_of(Seq::<Option<TileView>>::empty()) =~= Seq::<TileView>::empty());
    assert(seq![Some(t1)].drop_last() =~= Seq::<Option<TileView>>::empty());
    assert(tiles_of(seq![Some(t1)]) =~= seq![t1]);
    assert(seq![Some(t1), Some(t2)].drop_last() =~= seq![Some(t1)]);
    assert(tiles_of(seq![Some(t1), Some(t2)]) =~= seq![t1, t2]);
    assert(seq![Some(t1), Some(t2), None::<TileView>].drop_last() =~= seq![Some(t1), Some(t2)]);
    assert(tiles_of(seq![Some(t1), Some(t2), None::<TileView>]) =~= seq![t1, t2]);
    assert(cells.drop_last() =~= seq![Some(t1), Some(t2), None::<TileView>]);
    assert(ts =~= seq![t1, t2]);
    let p1 = seq![MergePair { keeper: t1, absorbed: None }];
    assert(pair_seq(ts.drop_last()) =~= p1) by {
        assert(ts.drop_last() =~= seq![t1]);
        assert(pair_seq(Seq::<TileView>::empty()) =~= Seq::<MergePair>::empty());
        assert(seq![t1].drop_last() =~= Seq::<TileView>::empty());
        assert(pair_seq(seq![t1]) =~= p1);
    }
    assert(crate::moves::can_join(p1, t2));
    let p2 = p1.update(0, MergePair { keeper: t2, absorbed: Some(t1) });
    assert(pair_seq(ts) == crate::moves::pair_step(pair_seq(ts.drop_last()), t2));
    assert(pair_seq(ts) =~= p2);
    assert(crate::moves::pairs_score(p2) == crate::moves::pairs_score(p2.drop_last()) + 2 * v);
    assert(p2.drop_last() =~= Seq::<MergePair>::empty());
}

/// A board that carries no merge snapshots is unchanged by clearing them:
/// together with the contract of move resolution, a rejected move leaves
/// such a board, and the score, exactly as they were.
pub proof fn lemma_clear_merged_identity(b: Seq<Option<TileView>>)
    requires
        crate::model::flags_clear(b),
    ensures
        crate::model::clear_merged(b) == b,
{
    assert forall|i: int| 0 <= i < b.len() implies crate::model::clear_merged(b)[i] == b[i] by {
        match b[i] {
            Some(t) => {
                assert(t.merged is None);
                assert((TileView { merged: None, ..t }) == t);
            },
            None => {},
        }
    }
    assert(crate::model::clear_merged(b) =~= b);
}

/// Terminal detection: on a full board where no two adjacent tiles hold
/// equal values, no direction changes the board — every move is rejected.
pub proof fn lemma_terminal_no_moves(b: Seq<Option<TileView>>, dir: Direction)
    requires
        b.len() == 16,
        crate::model::board_ok(b),
        is_terminal(b),
    ensures
        resolve(b, dir) == b,
{
    crate::moves::lemma_line_geometry(dir);
    crate::moves::lemma_resolve_noop(b, dir);
    assert forall|ll: int| 0 <= ll < 4 implies #[trigger] line_result(line_of(b, dir, ll), dir, ll)
        == line_of(b, dir, ll) by {
        let cells = line_of(b, dir, ll);
        assert forall|q: int| 0 <= q < 4 implies (#[trigger] cells[q]) is Some by {
            assert(cells[q] == b[line_cell(dir, ll, q)]);
        }
        crate::model::lemma_tiles_of_full(cells);
        let ts = tiles_of(cells);
        assert forall|q: int| 0 <= q < 3 implies #[trigger] ts[q].value != ts[q + 1].value by {
            lemma_adjacent_line_cells(b, dir, ll, q);
            assert(ts[q] == cells[q]->0);
            assert(ts[q + 1] == cells[q + 1]->0);
        }
        lemma_pair_seq_distinct_adjacent(ts);
        crate::moves::lemma_pair_seq_counts(ts);
        assert forall|q: int| 0 <= q < 4 implies crate::model::cell_ok(
            #[trigger] cells[q],
            line_cell(dir, ll, q),
        ) by {
            assert(cells[q] == b[line_cell(dir, ll, q)]);
        }
        crate::moves::lemma_full_line_unchanged(cells, dir, ll);
    }
}

/// Successive cells of a line are adjacent on the board, so on a terminal
/// board their values differ.
proof fn lemma_adjacent_line_cells(b: Seq<Option<TileView>>, dir: Direction, ll: int, q: int)
    requires
        b.len() == 16,
        is_terminal(b),
        0 <= ll < 4,
        0 <= q < 3,
    ensures
        crate::model::both_differ(b[line_cell(dir, ll, q)], b[line_cell(dir, ll, q + 1)]),
{
    match dir {
        Direction::Left => {
            assert(crate::model::both_differ(
                b[crate::model::cell_of(ll, q)],
                b[crate::model::cell_of(ll, q + 1)],
            ));
        },
        Direction::Right => {
            assert(crate::model::both_differ(
                b[crate::model::cell_of(ll, 2 - q)],
                b[crate::model::cell_of(ll, 3 - q)],
            ));
        },
        Direction::Up => {
            assert(crate::model::both_differ(
                b[crate::model::cell_of(q, ll)],
                b[crate::model::cell_of(q + 1, ll)],
            ));
        },
        Direction::Down => {
            assert(crate::model::both_differ(
                b[crate::model::cell_of(2 - q, ll)],
                b[crate::model::cell_of(3 - q, ll)],
            ));
        },
    }
}

/// A line whose successive tiles differ in value merges nothing.
proof fn lemma_pair_seq_distinct_adjacent(ts: Seq<TileView>)
    requires
        forall|q: int| 0 <= q < ts.len() - 1 ==> #[trigger] ts[q].value != ts[q + 1].value,
    ensures
        pair_seq(ts).len() == ts.len(),
    decreases ts.len(),
{
    if ts.len() > 0 {
        assert forall|q: int|
            0 <= q < ts.drop_last().len() - 1 implies #[trigger] ts.drop_last()[q].value
            != ts.drop_last()[q + 1].value by {
            assert(ts.drop_last()[q] == ts[q]);
            assert(ts.drop_last()[q + 1] == ts[q + 1]);
        }
        lemma_pair_seq_distinct_adjacent(ts.drop_last());
        let acc = pair_seq(ts.drop_last());
        if ts.len() >= 2 {
            crate::moves::lemma_pair_seq_nomerge(ts.drop_last());
            assert(acc[ts.len() - 2] == (MergePair {
                keeper: ts.drop_last()[ts.len() - 2],
                absorbed: None,
            }));
            assert(ts.drop_last()[ts.len() - 2] == ts[ts.len() - 2]);
            assert(ts[ts.len() - 2].value != ts[ts.len() - 1].value);
            assert(!crate::moves::can_join(acc, ts.last()));
        }
    }
}


/// Some pair of the compacted line absorbed a tile with this identifier.
pub open spec fn absorbed_id_of(ps: Seq<MergePair>, idv: int) -> bool {
    exists|p: int|
        0 <= p < ps.len() && ((#[trigger] ps[p]).absorbed matches Some(a) && a.id == idv)
}

/// Some cell of the line holds a tile with this identifier.
pub open spec fn line_has_id(cells: Seq<Option<TileView>>, idv: int) -> bool {
    exists|q: int|
        0 <= q < cells.len() && (#[trigger] cells[q] matches Some(t) && t.id == idv)
}

/// Some cell of the board holds a tile with this identifier.
pub open spec fn board_has_id(b: Seq<Option<TileView>>, idv: int) -> bool {
    exists|i: int| 0 <= i < 16 && (#[trigger] b[i] matches Some(t) && t.id == idv)
}

/// No immediate identifier reuse: the identifier the spawned tile draws is
/// taken from the free pool before the merge-freed identifiers return to
/// it, so it differs from every identifier freed this turn.
pub proof fn lemma_no_immediate_reuse(b: Seq<Option<TileView>>, pool: Seq<usize>, dir: Direction)
    requires
        b.len() == 16,
        ids_mset(b).add(idseq_mset(pool)) == range_mset(17),
        pool.len() > 0,
    ensures
        forall|k: int|
            0 <= k < move_recycled(b, dir).len() ==> #[trigger] move_recycled(b, dir)[k] != pool[0],
{
    crate::moves::lemma_line_geometry(dir);
    lemma_move_recycled_ids(b, dir, 4);
    assert forall|k: int| 0 <= k < move_recycled(b, dir).len() implies #[trigger] move_recycled(
        b,
        dir,
    )[k] != pool[0] by {
        if move_recycled(b, dir)[k] == pool[0] as int {
            assert(board_has_id(b, move_recycled(b, dir)[k]));
            let i = choose|i: int|
                0 <= i < 16 && (#[trigger] b[i] matches Some(t) && t.id == move_recycled(b, dir)[k]);
            crate::model::lemma_ids_count_member(b, i, 16);
            crate::model::lemma_idseq_mset_member(pool, 0);
            crate::model::lemma_range_mset_count(17, pool[0] as int);
            assert(range_mset(17).count(pool[0] as int) == ids_mset(b).count(pool[0] as int)
                + idseq_mset(pool).count(pool[0] as int));
            assert(false);
        }
    }
}

/// Every identifier freed by the first `l` lines of a move belonged to a
/// tile on the board.
proof fn lemma_move_recycled_ids(b: Seq<Option<TileView>>, dir: Direction, l: int)
    requires
        b.len() == 16,
        0 <= l <= 4,
    ensures
        forall|k: int|
            0 <= k < move_recycled_upto(b, dir, l).len() ==> board_has_id(
                b,
                #[trigger] move_recycled_upto(b, dir, l)[k],
            ),
    decreases l,
{
    crate::moves::lemma_line_geometry(dir);
    if l > 0 {
        lemma_move_recycled_ids(b, dir, l - 1);
        lemma_line_recycled_ids(line_of(b, dir, l - 1));
        assert forall|k: int| 0 <= k < move_recycled_upto(b, dir, l).len() implies board_has_id(
            b,
            #[trigger] move_recycled_upto(b, dir, l)[k],
        ) by {
            let prefix = move_recycled_upto(b, dir, l - 1);
            if k < prefix.len() {
                assert(move_recycled_upto(b, dir, l)[k] == prefix[k]);
            } else {
                let cells = line_of(b, dir, l - 1);
                let kk = k - prefix.len();
                assert(move_recycled_upto(b, dir, l)[k] == line_recycled(cells)[kk]);
                assert(line_has_id(cells, line_recycled(cells)[kk]));
                let q = choose|q: int|
                    0 <= q < cells.len() && (#[trigger] cells[q] matches Some(t) && t.id
                        == line_recycled(cells)[kk]);
                assert(cells[q] == b[line_cell(dir, l - 1, q)]);
                assert(0 <= line_cell(dir, l - 1, q) < 16);
                assert(b[line_cell(dir, l - 1, q)] matches Some(t) && t.id == line_recycled(
                    cells,
                )[kk]);
            }
        }
    }
}

/// Every identifier a line frees belonged to one of its tiles.
proof fn lemma_line_recycled_ids(cells: Seq<Option<TileView>>)
    ensures
        forall|k: int|
            0 <= k < line_recycled(cells).len() ==> line_has_id(
                cells,
                #[trigger] line_recycled(cells)[k],
            ),
{
    let ts = tiles_of(cells);
    let ps = pair_seq(ts);
    lemma_pairs_recycled_members(ps);
    crate::moves::lemma_pair_seq_members(ts);
    crate::model::lemma_tiles_of_member(cells);
    assert forall|k: int| 0 <= k < line_recycled(cells).len() implies line_has_id(
        cells,
        #[trigger] line_recycled(cells)[k],
    ) by {
        assert(absorbed_id_of(ps, pairs_recycled(ps)[k]));
        let p = choose|p: int|
            0 <= p < ps.len() && ((#[trigger] ps[p]).absorbed matches Some(a) && a.id
                == pairs_recycled(ps)[k]);
        let a = ps[p].absorbed->0;
        assert(ts.contains(ps[p].keeper));
        assert(ts.contains(a));
        let w = choose|w: int| 0 <= w < ts.len() && ts[w] == a;
        let q = choose|q: int| 0 <= q < cells.len() && cells[q] == Some(ts[w]);
        assert(cells[q] matches Some(t) && t.id == line_recycled(cells)[k]);
    }
}

/// Every recycled identifier comes from an absorbed tile of some pair.
proof fn lemma_pairs_recycled_members(ps: Seq<MergePair>)
    ensures
        forall|k: int|
            0 <= k < pairs_recycled(ps).len() ==> absorbed_id_of(
                ps,
                #[trigger] pairs_recycled(ps)[k],
            ),
    decreases ps.len(),
{
    if ps.len() > 0 {
        lemma_pairs_recycled_members(ps.drop_last());
        assert forall|k: int| 0 <= k < pairs_recycled(ps).len() implies absorbed_id_of(
            ps,
            #[trigger] pairs_recycled(ps)[k],
        ) by {
            let prefix = pairs_recycled(ps.drop_last());
            if k < prefix.len() {
                assert(pairs_recycled(ps)[k] == prefix[k]);
                assert(absorbed_id_of(ps.drop_last(), prefix[k]));
                let p = choose|p: int|
                    0 <= p < ps.drop_last().len() && ((#[trigger] ps.drop_last()[p]).absorbed
                        matches Some(a) && a.id == prefix[k]);
                assert(ps[p] == ps.drop_last()[p]);
                assert(ps[p].absorbed matches Some(a) && a.id == pairs_recycled(ps)[k]);
            } else {
                assert(ps.last().absorbed is Some);
                assert(pairs_recycled(ps)[k] == ps.last().absorbed->0.id);
                assert(ps[ps.len() - 1].absorbed matches Some(a) && a.id == pairs_recycled(ps)[k]);
            }
        }
    }
}

/// The four tiles of a fully occupied line, in order.
proof fn lemma_four_tiles(t1: TileView, t2: TileView, t3: TileView, t4: TileView)
    ensures
        tiles_of(seq![Some(t1), Some(t2), Some(t3), Some(t4)]) =~= seq![t1, t2, t3, t4],
{
    let cells = seq![Some(t1), Some(t2), Some(t3), Some(t4)];
    assert(tiles_of(Seq::<Option<TileView>>::empty()) =~= Seq::<TileView>::empty());
    assert(seq![Some(t1)].drop_last() =~= Seq::<Option<TileView>>::empty());
    assert(tiles_of(seq![Some(t1)]) =~= seq![t1]);
    assert(seq![Some(t1), Some(t2)].drop_last() =~= seq![Some(t1)]);
    assert(tiles_of(seq![Some(t1), Some(t2)]) =~= seq![t1, t2]);
    assert(seq![Some(t1), Some(t2), Some(t3)].drop_last() =~= seq![Some(t1), Some(t2)]);
    assert(tiles_of(seq![Some(t1), Some(t2), Some(t3)]) =~= seq![t1, t2, t3]);
    assert(cells.drop_last() =~= seq![Some(t1), Some(t2), Some(t3)]);
    assert(tiles_of(cells) =~= seq![t1, t2, t3, t4]);
}

} // verus!
