//! The board model: creation, identifier pool, free slots and queries.

use vstd::prelude::*;
use vstd::multiset::Multiset;

use crate::Game;
use crate::NewTileParams;
use crate::Tile;
use crate::model::bview;
use crate::model::board_ok;
use crate::model::cell_of;
use crate::model::cell_ids;
use crate::model::cell_ok;
use crate::model::clear_merged;
use crate::model::flags_clear;
use crate::model::free_list;
use crate::model::ids_count;
use crate::model::ids_mset;
use crate::model::idseq_mset;
use crate::model::is_pow2;
use crate::model::is_terminal;
use crate::model::lemma_free_list_len;
use crate::model::lemma_free_list_members;
use crate::model::lemma_ids_count_update;
use crate::model::lemma_idseq_mset_skip1;
use crate::model::lemma_occupied_count_bounds;
use crate::model::lemma_occupied_count_update;
use crate::model::occupied_count;
use crate::model::occupied_total;
use crate::model::params_ok;
use crate::model::range_mset;
use crate::model::starting_values_ok;
use crate::model::tiles_of;
use crate::model::value_ok;
use crate::model::views_of;

verus! {

broadcast use vstd::multiset::group_multiset_axioms;

/// Reads one cell of the board.
pub(crate) fn cell_ref<'a>(board: &'a Vec<Option<Tile>>, i: usize) -> (c: &'a Option<Tile>)
    requires
        i < board@.len(),
    ensures
        *c == board@[i as int],
{
    &board[i]
}

/// Moves one cell's contents out of the board, leaving the cell empty.
pub(crate) fn take_cell(board: &mut Vec<Option<Tile>>, i: usize) -> (c: Option<Tile>)
    requires
        i < old(board)@.len(),
    ensures
        final(board)@ == old(board)@.update(i as int, None::<Tile>),
        c == old(board)@[i as int],
{
    let t = board.remove(i);
    board.insert(i, None);
    proof {
        assert(board@ =~= old(board)@.update(i as int, None::<Tile>));
    }
    t
}

impl Game {
    /// The game's internal invariant: every cell is consistent, and the
    /// identifiers on the board together with the free pool form exactly
    /// the set `0 .. 17`, each one once.
    pub open spec fn wf(&self) -> bool {
        &&& board_ok(bview(self.board@))
        &&& ids_mset(bview(self.board@)).add(idseq_mset(self.id_list@)) == range_mset(17)
        &&& params_ok(self.new_tile_params)
    }

    /// Generates a new game board in a ready-to-play state: empty save for
    /// two starting tiles, which are either two 2s or one 2 and one 4.
    pub fn new() -> (g: Game)
        ensures
            g.wf(),
            g.score == 0,
            g.win_target == 2048,
            g.new_tile_params.tile_weights@ == seq![4u8, 1u8],
            occupied_total(bview(g.board@)) == 2,
            starting_values_ok(bview(g.board@)),
            flags_clear(bview(g.board@)),
    {
        Game::new_with_config(4, 2048)
    }

    /// Like [`Game::new`], with a configurable spawn weight ratio and win
    /// target value.
    #[verifier::rlimit(60)]
    pub fn new_with_config(two_to_four_weight_ratio: u8, win_target: u32) -> (g: Game)
        requires
            1 <= two_to_four_weight_ratio <= 254,
        ensures
            g.wf(),
            g.score == 0,
            g.win_target == win_target,
            g.new_tile_params.tile_weights@ == seq![two_to_four_weight_ratio, 1u8],
            occupied_total(bview(g.board@)) == 2,
            starting_values_ok(bview(g.board@)),
            flags_clear(bview(g.board@)),
    {
        let mut board: Vec<Option<Tile>> = Vec::new();
        let mut i: usize = 0;
        while i < 16
            invariant
                board@.len() == i as int,
                i <= 16,
                forall|j: int| 0 <= j < i ==> board@[j] is None,
            decreases 16 - i,
        {
            board.push(None);
            i = i + 1;
        }
        let mut id_list: Vec<usize> = Vec::new();
        let mut k: usize = 0;
        while k < 17
            invariant
                id_list@.len() == k as int,
                k <= 17,
                forall|j: int| 0 <= j < k ==> id_list@[j] == j,
                idseq_mset(id_list@) == range_mset(k as int),
            decreases 17 - k,
        {
            proof {
                assert(id_list@.push(k).drop_last() =~= id_list@);
            }
            id_list.push(k);
            k = k + 1;
        }
        let mut game = Game {
            board,
            new_tile_params: NewTileParams::with_ratio(two_to_four_weight_ratio),
            free_slots: Vec::new(),
            score: 0,
            id_list,
            win_target,
        };
        proof {
            lemma_empty_board_facts(bview(game.board@));
            assert(ids_mset(bview(game.board@)).add(idseq_mset(game.id_list@)) =~= range_mset(17));
        }

        // If the first tile is a 4, the second tile must be a 2; if it is a
        // 2, the second tile is drawn normally.  Two starting 4s never occur.
        let first_value = game.generate_tile_value();
        let second_value = if first_value == game.new_tile_params.tile_choices[1] {
            game.new_tile_params.tile_choices[0]
        } else {
            game.generate_tile_value()
        };
        assert(first_value == 4 ==> second_value == 2);

        let first_pos = game.get_random_free_slot().unwrap();
        let ghost pool0 = game.id_list@;
        let first_id = game.get_id().unwrap();
        proof {
            lemma_idseq_mset_skip1(pool0);
            assert(ids_mset(bview(game.board@)).add(
                idseq_mset(game.id_list@).insert(first_id as int),
            ) =~= ids_mset(bview(game.board@)).add(idseq_mset(pool0)));
        }
        game.place_new_tile(first_value, first_id, first_pos.0, first_pos.1);
        let ghost b1 = bview(game.board@);
        let ghost c1 = cell_of(first_pos.0 as int, first_pos.1 as int);

        let second_pos = game.get_random_free_slot().unwrap();
        let ghost pool1 = game.id_list@;
        let second_id = game.get_id().unwrap();
        proof {
            lemma_idseq_mset_skip1(pool1);
            assert(ids_mset(bview(game.board@)).add(
                idseq_mset(game.id_list@).insert(second_id as int),
            ) =~= ids_mset(bview(game.board@)).add(idseq_mset(pool1)));
        }
        game.place_new_tile(second_value, second_id, second_pos.0, second_pos.1);
        let ghost c2 = cell_of(second_pos.0 as int, second_pos.1 as int);

        proof {
            let bv = bview(game.board@);
            assert(b1[c2] is None);
            assert(c1 != c2);
            assert(forall|j: int| 0 <= j < 16 && j != c1 && j != c2 ==> bv[j] is None);
            assert(starting_values_ok(bv));
            assert(flags_clear(bv));
        }
        game
    }

    /// Returns the next available identifier, or `None` if the pool is empty.
    pub fn get_id(&mut self) -> (r: Option<usize>)
        ensures
            final(self).board == old(self).board,
            final(self).score == old(self).score,
            final(self).free_slots == old(self).free_slots,
            final(self).new_tile_params == old(self).new_tile_params,
            final(self).win_target == old(self).win_target,
            match r {
                Some(id) => {
                    &&& old(self).id_list@.len() > 0
                    &&& id == old(self).id_list@[0]
                    &&& final(self).id_list@ == old(self).id_list@.skip(1)
                },
                None => {
                    &&& old(self).id_list@.len() == 0
                    &&& final(self).id_list == old(self).id_list
                },
            },
    {
        if self.id_list.len() > 0 {
            let id = self.id_list.remove(0);
            proof {
                assert(self.id_list@ =~= old(self).id_list@.skip(1));
            }
            Some(id)
        } else {
            None
        }
    }

    /// Returns a batch of identifiers to the back of the pool.
    pub fn recycle_ids(&mut self, ids: Vec<usize>)
        ensures
            final(self).board == old(self).board,
            final(self).score == old(self).score,
            final(self).free_slots == old(self).free_slots,
            final(self).new_tile_params == old(self).new_tile_params,
            final(self).win_target == old(self).win_target,
            final(self).id_list@ == old(self).id_list@ + ids@,
    {
        let mut k: usize = 0;
        while k < ids.len()
            invariant
                k <= ids@.len(),
                self.id_list@ == old(self).id_list@ + ids@.take(k as int),
                self.board == old(self).board,
                self.score == old(self).score,
                self.free_slots == old(self).free_slots,
                self.new_tile_params == old(self).new_tile_params,
                self.win_target == old(self).win_target,
            decreases ids@.len() - k,
        {
            self.id_list.push(ids[k]);
            k = k + 1;
            proof {
                assert(self.id_list@ =~= old(self).id_list@ + ids@.take(k as int));
            }
        }
        proof {
            assert(ids@.take(ids@.len() as int) =~= ids@);
        }
    }

    /// Draws a new tile value: either 2 or 4, according to the configured
    /// weights.
    pub fn generate_tile_value(&self) -> (v: u32)
        requires
            params_ok(self.new_tile_params),
        ensures
            v == 2 || v == 4,
    {
        let idx = crate::rng::sample_weighted_pair(
            self.new_tile_params.tile_weights[0],
            self.new_tile_params.tile_weights[1],
        );
        self.new_tile_params.tile_choices[idx]
    }

    /// Recomputes the list of free slots from the board.
    pub fn update_free_slots(&mut self)
        requires
            old(self).board@.len() == 16,
        ensures
            final(self).board == old(self).board,
            final(self).score == old(self).score,
            final(self).id_list == old(self).id_list,
            final(self).new_tile_params == old(self).new_tile_params,
            final(self).win_target == old(self).win_target,
            final(self).free_slots@ == free_list(bview(final(self).board@), 16),
    {
        self.free_slots.clear();
        let mut i: usize = 0;
        while i < 16
            invariant
                self.board@.len() == 16,
                i <= 16,
                self.board == old(self).board,
                self.score == old(self).score,
                self.id_list == old(self).id_list,
                self.new_tile_params == old(self).new_tile_params,
                self.win_target == old(self).win_target,
                self.free_slots@ == free_list(bview(self.board@), i as int),
            decreases 16 - i,
        {
            let c = cell_ref(&self.board, i);
            if c.is_none() {
                self.free_slots.push((i / 4, i % 4));
                proof {
                    assert(self.free_slots@ =~= free_list(bview(self.board@), i as int) + seq![
                        ((i as int / 4) as usize, (i as int % 4) as usize),
                    ]);
                }
            } else {
                proof {
                    assert(self.free_slots@ =~= free_list(bview(self.board@), i + 1));
                }
            }
            i = i + 1;
        }
    }

    /// Returns clones of all current tiles, in row-major order.
    pub fn get_tiles(&self) -> (tiles: Vec<Tile>)
        requires
            self.board@.len() == 16,
        ensures
            views_of(tiles@) == tiles_of(bview(self.board@)),
    {
        let mut tiles: Vec<Tile> = Vec::new();
        let mut i: usize = 0;
        while i < 16
            invariant
                self.board@.len() == 16,
                i <= 16,
                views_of(tiles@) == tiles_of(bview(self.board@).take(i as int)),
            decreases 16 - i,
        {
            let c = cell_ref(&self.board, i);
            match c {
                Some(t) => {
                    tiles.push(t.clone());
                },
                None => {},
            }
            i = i + 1;
            proof {
                let bv = bview(self.board@);
                assert(bv.take(i as int).drop_last() =~= bv.take(i as int - 1));
                assert(views_of(tiles@) =~= tiles_of(bv.take(i as int)));
            }
        }
        proof {
            assert(bview(self.board@).take(16) =~= bview(self.board@));
        }
        tiles
    }

    /// Returns the coordinates of a free board slot at random, or `None`
    /// if no free slot exists.
    pub fn get_random_free_slot(&mut self) -> (r: Option<(usize, usize)>)
        requires
            old(self).board@.len() == 16,
        ensures
            final(self).board == old(self).board,
            final(self).score == old(self).score,
            final(self).id_list == old(self).id_list,
            final(self).new_tile_params == old(self).new_tile_params,
            final(self).win_target == old(self).win_target,
            final(self).free_slots@ == free_list(bview(final(self).board@), 16),
            r is Some <==> occupied_total(bview(final(self).board@)) < 16,
            r matches Some(rc) ==> {
                &&& rc.0 < 4
                &&& rc.1 < 4
                &&& bview(final(self).board@)[cell_of(rc.0 as int, rc.1 as int)] is None
            },
    {
        self.update_free_slots();
        proof {
            lemma_free_list_len(bview(self.board@), 16);
            lemma_free_list_members(bview(self.board@), 16);
            lemma_occupied_count_bounds(bview(self.board@), 16);
        }
        crate::rng::choose_slot(&self.free_slots)
    }

    /// Removes the merge snapshots of every tile, as done before any move
    /// is resolved.
    pub fn reset_merged_flags(&mut self)
        requires
            old(self).board@.len() == 16,
        ensures
            final(self).score == old(self).score,
            final(self).id_list == old(self).id_list,
            final(self).free_slots == old(self).free_slots,
            final(self).new_tile_params == old(self).new_tile_params,
            final(self).win_target == old(self).win_target,
            final(self).board@.len() == 16,
            bview(final(self).board@) == clear_merged(bview(old(self).board@)),
    {
        let mut i: usize = 0;
        while i < 16
            invariant
                old(self).board@.len() == 16,
                self.board@.len() == 16,
                i <= 16,
                self.score == old(self).score,
                self.id_list == old(self).id_list,
                self.free_slots == old(self).free_slots,
                self.new_tile_params == old(self).new_tile_params,
                self.win_target == old(self).win_target,
                forall|j: int|
                    0 <= j < i ==> bview(self.board@)[j] == clear_merged(
                        bview(old(self).board@),
                    )[j],
                forall|j: int| i <= j < 16 ==> self.board@[j] == old(self).board@[j],
            decreases 16 - i,
        {
            let ghost bprev = self.board@;
            let c = take_cell(&mut self.board, i);
            match c {
                Some(mut t) => {
                    t.merged = None;
                    self.board.set(i, Some(t));
                },
                None => {},
            }
            proof {
                assert forall|j: int|
                    0 <= j < i + 1 implies bview(self.board@)[j] == clear_merged(
                    bview(old(self).board@),
                )[j] by {
                    if j < i {
                        assert(self.board@[j] == bprev[j]);
                        assert(bview(self.board@)[j] == bview(bprev)[j]);
                    } else {
                        assert(bview(self.board@)[j] == clear_merged(bview(old(self).board@))[j]);
                    }
                }
                assert forall|j: int| i + 1 <= j < 16 implies self.board@[j] == old(
                    self,
                ).board@[j] by {
                    assert(self.board@[j] == bprev[j]);
                }
            }
            i = i + 1;
        }
        proof {
            assert(bview(self.board@) =~= clear_merged(bview(old(self).board@)));
        }
    }

    /// Returns the pair of background and text color for a tile value.
    pub fn get_tile_colors(&self, tile_value: u32) -> (r: (String, String))
        requires
            value_ok(tile_value as int),
        ensures
            r.0@ == crate::colors::bg_color_spec(tile_value as int),
            r.1@ == crate::colors::text_color_spec(),
    {
        crate::colors::tile_colors(tile_value)
    }

    /// Reports whether the game is lost: the board is full and no two
    /// adjacent tiles hold equal values, so no direction can move.
    pub fn game_over(&self) -> (r: bool)
        requires
            self.board@.len() == 16,
        ensures
            r == is_terminal(bview(self.board@)),
    {
        let ghost bv = bview(self.board@);
        let mut i: usize = 0;
        while i < 16
            invariant
                self.board@.len() == 16,
                bv == bview(self.board@),
                i <= 16,
                forall|j: int| 0 <= j < i ==> bv[j] is Some,
                forall|j: int|
                    0 <= j < i && j % 4 < 3 ==> crate::model::both_differ(#[trigger] bv[j], bv[j + 1]),
                forall|j: int|
                    0 <= j < i && j / 4 < 3 ==> crate::model::both_differ(#[trigger] bv[j], bv[j + 4]),
            decreases 16 - i,
        {
            let c = cell_ref(&self.board, i);
            match c {
                None => {
                    assert(bv[i as int] is None);
                    assert(!crate::model::full_board(bv));
                    return false;
                },
                Some(t) => {
                    if i % 4 < 3 {
                        let n = cell_ref(&self.board, i + 1);
                        match n {
                            None => {
                                assert(bv[i as int + 1] is None);
                                assert(!crate::model::full_board(bv));
                                return false;
                            },
                            Some(u) => {
                                if t.value == u.value {
                                    assert(!crate::model::no_adjacent_equal(bv)) by {
                                        let r = i as int / 4;
                                        let cc = i as int % 4;
                                        assert(cell_of(r, cc) == i as int);
                                        assert(cell_of(r, cc + 1) == i as int + 1);
                                        assert(!crate::model::both_differ(
                                            bv[cell_of(r, cc)],
                                            bv[cell_of(r, cc + 1)],
                                        ));
                                    }
                                    return false;
                                }
                            },
                        }
                    }
                    if i / 4 < 3 {
                        let n = cell_ref(&self.board, i + 4);
                        match n {
                            None => {
                                assert(bv[i as int + 4] is None);
                                assert(!crate::model::full_board(bv));
                                return false;
                            },
                            Some(u) => {
                                if t.value == u.value {
                                    assert(!crate::model::no_adjacent_equal(bv)) by {
                                        let r = i as int / 4;
                                        let cc = i as int % 4;
                                        assert(cell_of(r, cc) == i as int);
                                        assert(cell_of(r + 1, cc) == i as int + 4);
                                        assert(!crate::model::both_differ(
                                            bv[cell_of(r, cc)],
                                            bv[cell_of(r + 1, cc)],
                                        ));
                                    }
                                    return false;
                                }
                            },
                        }
                    }
                },
            }
            i = i + 1;
        }
        proof {
            assert(crate::model::no_adjacent_equal(bv)) by {
                assert forall|r: int, c: int| 0 <= r < 4 && 0 <= c < 3 implies crate::model::both_differ(
                    #[trigger] bv[cell_of(r, c)],
                    bv[cell_of(r, c + 1)],
                ) by {
                    assert(cell_of(r, c) == 4 * r + c);
                    assert(0 <= 4 * r + c < 16 && (4 * r + c) % 4 < 3);
                }
                assert forall|r: int, c: int| 0 <= r < 3 && 0 <= c < 4 implies crate::model::both_differ(
                    #[trigger] bv[cell_of(r, c)],
                    bv[cell_of(r + 1, c)],
                ) by {
                    assert(cell_of(r, c) == 4 * r + c);
                    assert(0 <= 4 * r + c < 16 && (4 * r + c) / 4 < 3);
                }
            }
        }
        true
    }

    /// Reports whether any tile's value has reached `target`.
    pub fn any_tile_reaches(&self, target: u32) -> (r: bool)
        requires
            self.board@.len() == 16,
        ensures
            r == crate::model::any_tile_at_least(bview(self.board@), target as int),
    {
        let ghost bv = bview(self.board@);
        let mut i: usize = 0;
        while i < 16
            invariant
                self.board@.len() == 16,
                bv == bview(self.board@),
                i <= 16,
                forall|q: int|
                    0 <= q < i ==> !(#[trigger] bv[q] matches Some(t) && t.value >= target),
            decreases 16 - i,
        {
            let c = cell_ref(&self.board, i);
            match c {
                Some(t) => {
                    if t.value >= target {
                        proof {
                            assert(bv[i as int] matches Some(u) && u.value >= target);
                        }
                        return true;
                    }
                },
                None => {},
            }
            i = i + 1;
        }
        false
    }

    /// Places a freshly drawn tile on an empty cell of a consistent board,
    /// restoring the identifier invariant.
    pub(crate) fn place_new_tile(&mut self, value: u32, id: usize, row: usize, col: usize)
        requires
            board_ok(bview(old(self).board@)),
            params_ok(old(self).new_tile_params),
            value == 2 || value == 4,
            id < 17,
            row < 4,
            col < 4,
            bview(old(self).board@)[cell_of(row as int, col as int)] is None,
            ids_mset(bview(old(self).board@)).add(
                idseq_mset(old(self).id_list@).insert(id as int),
            ) == range_mset(17),
        ensures
            final(self).wf(),
            final(self).score == old(self).score,
            final(self).id_list == old(self).id_list,
            final(self).new_tile_params == old(self).new_tile_params,
            final(self).win_target == old(self).win_target,
            final(self).board@.len() == 16,
            occupied_total(bview(final(self).board@)) == occupied_total(bview(old(self).board@))
                + 1,
            bview(final(self).board@) == bview(old(self).board@).update(
                cell_of(row as int, col as int),
                Some(
                    crate::model::TileView {
                        value: value as int,
                        id: id as int,
                        background_color: crate::colors::bg_color_spec(value as int),
                        text_color: crate::colors::text_color_spec(),
                        row: row as int,
                        col: col as int,
                        merged: None,
                    },
                ),
            ),
    {
        proof {
            lemma_small_pow2();
        }
        let (background_color, text_color) = self.get_tile_colors(value);
        let tile = Tile::new(value, id, background_color, text_color, row, col);
        let idx = row * 4 + col;
        assert(idx == cell_of(row as int, col as int));
        let ghost bv0 = bview(self.board@);
        self.board.set(idx, Some(tile));
        proof {
            assert(bview(self.board@) =~= bv0.update(idx as int, Some(tile@)));
            lemma_ids_count_update(bv0, idx as int, Some(tile@), 16);
            lemma_occupied_count_update(bv0, idx as int, Some(tile@), 16);
            assert(ids_count(bview(self.board@), 16) == ids_count(
                bv0.update(idx as int, Some(tile@)),
                16,
            ));
            assert forall|v: int| ids_mset(bview(self.board@)).count(v) == ids_mset(bv0).insert(
                id as int,
            ).count(v) by {
                assert(ids_count(bv0.update(idx as int, Some(tile@)), 16).add(
                    cell_ids(bv0[idx as int]),
                ).count(v) == ids_count(bv0, 16).add(cell_ids(Some(tile@))).count(v));
                assert(cell_ids(bv0[idx as int]).count(v) == 0);
                assert(cell_ids(Some(tile@)).count(v) == Multiset::<int>::empty().insert(
                    id as int,
                ).count(v));
            }
            assert(ids_mset(bview(self.board@)) =~= ids_mset(bv0).insert(id as int));
            assert forall|v: int| ids_mset(bv0).insert(id as int).add(
                idseq_mset(self.id_list@),
            ).count(v) == ids_mset(bv0).add(idseq_mset(self.id_list@).insert(id as int)).count(
                v,
            ) by {}
            assert(ids_mset(bv0).insert(id as int).add(idseq_mset(self.id_list@)) =~= ids_mset(
                bv0,
            ).add(idseq_mset(self.id_list@).insert(id as int)));
            assert(board_ok(bview(self.board@)));
        }
    }
}

/// The values 2 and 4 are powers of two.
pub proof fn lemma_small_pow2()
    ensures
        is_pow2(2),
        is_pow2(4),
        value_ok(2),
        value_ok(4),
{
    reveal_with_fuel(is_pow2, 4);
}

/// On an all-empty board there are no identifiers and no occupied cells.
proof fn lemma_empty_board_facts(b: Seq<Option<crate::model::TileView>>)
    requires
        b.len() == 16,
        forall|j: int| 0 <= j < 16 ==> b[j] is None,
    ensures
        occupied_total(b) == 0,
        ids_mset(b) == Multiset::<int>::empty(),
        board_ok(b),
{
    lemma_empty_counts(b, 16);
}

proof fn lemma_empty_counts(b: Seq<Option<crate::model::TileView>>, n: int)
    requires
        n <= b.len(),
        forall|j: int| 0 <= j < n ==> b[j] is None,
    ensures
        occupied_count(b, n) == 0,
        ids_count(b, n) == Multiset::<int>::empty(),
    decreases n,
{
    if n > 0 {
        lemma_empty_counts(b, n - 1);
    }
}

} // verus!
