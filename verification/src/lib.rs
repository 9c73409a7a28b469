//! Rules engine of a 2048-style sliding-tile puzzle.
//!
//! The engine owns the board state, resolves player moves into slide/merge
//! outcomes, spawns new tiles, tracks the score, and detects terminal states.
//! Rendering, input capture and animation pacing are left to callers.

use vstd::prelude::*;

pub mod colors;
pub mod game;
pub mod laws;
pub mod model;
pub mod moves;
pub mod rng;

use crate::model::SnapshotView;

verus! {

/// Number of rows and columns of the square game board.
pub const BOARD_DIMENSION: usize = 4;

/// Total number of cells on the board.
pub const NUM_TILES: usize = 16;

/// Number of tile identifiers: one more than the maximum number of
/// simultaneously live tiles.  A tile spawned on a full board right after a
/// merge must not reuse an identifier freed by that same merge, so the pool
/// is one larger than the board.
pub const NUM_IDS: usize = 17;

/// A numbered game piece together with the display data a renderer needs.
pub struct Tile {
    pub value: u32,
    pub id: usize,
    pub background_color: String,
    pub text_color: String,
    pub row: usize,
    pub col: usize,
    pub merged: Option<TileSnapshot>,
}

/// Snapshot of a tile that was absorbed by a merge on the current turn.
///
/// It records the absorbed tile's final position so that a renderer can move
/// that tile onto the union point before deleting it.
pub struct TileSnapshot {
    pub value: u32,
    pub id: usize,
    pub background_color: String,
    pub text_color: String,
    pub row: usize,
    pub col: usize,
}

impl Tile {
    /// Builds a tile with no merge snapshot attached.
    pub fn new(
        value: u32,
        id: usize,
        background_color: String,
        text_color: String,
        row: usize,
        col: usize,
    ) -> (t: Tile)
        ensures
            t@.value == value as int,
            t@.id == id as int,
            t@.background_color == background_color@,
            t@.text_color == text_color@,
            t@.row == row as int,
            t@.col == col as int,
            t@.merged is None,
    {
        Tile { value, id, background_color, text_color, row, col, merged: None }
    }
}

impl Clone for TileSnapshot {
    fn clone(&self) -> (r: Self)
        ensures
            r == *self,
    {
        TileSnapshot {
            value: self.value,
            id: self.id,
            background_color: self.background_color.clone(),
            text_color: self.text_color.clone(),
            row: self.row,
            col: self.col,
        }
    }
}

impl Clone for Tile {
    fn clone(&self) -> (r: Self)
        ensures
            r == *self,
    {
        Tile {
            value: self.value,
            id: self.id,
            background_color: self.background_color.clone(),
            text_color: self.text_color.clone(),
            row: self.row,
            col: self.col,
            merged: match &self.merged {
                Some(s) => Some(s.clone()),
                None => None,
            },
        }
    }
}

/// Choices for newly spawned tiles and the weights with which they appear.
pub struct NewTileParams {
    pub tile_choices: [u32; 2],
    pub tile_weights: [u8; 2],
}

impl NewTileParams {
    /// Index of the parameters of 2-tiles in `tile_choices` and `tile_weights`.
    pub const TWO: usize = 0;

    /// Index of the parameters of 4-tiles in `tile_choices` and `tile_weights`.
    pub const FOUR: usize = 1;

    /// Default settings: 2-tiles appear four times as often as 4-tiles.
    pub fn new() -> (p: NewTileParams)
        ensures
            p.tile_choices@ == seq![2u32, 4u32],
            p.tile_weights@ == seq![4u8, 1u8],
    {
        NewTileParams { tile_choices: [2, 4], tile_weights: [4, 1] }
    }

    /// Settings with a configurable ratio of 2-tiles to 4-tiles.
    pub fn with_ratio(two_to_four_weight_ratio: u8) -> (p: NewTileParams)
        requires
            1 <= two_to_four_weight_ratio <= 254,
        ensures
            p.tile_choices@ == seq![2u32, 4u32],
            p.tile_weights@ == seq![two_to_four_weight_ratio, 1u8],
    {
        NewTileParams { tile_choices: [2, 4], tile_weights: [two_to_four_weight_ratio, 1] }
    }
}

/// Fixed colors of the surrounding user interface.
pub struct Colors {
    pub background_dark: &'static str,
    pub background_light: &'static str,
    pub text_dark: &'static str,
    pub text_light: &'static str,
    pub button: &'static str,
    pub button_hover: &'static str,
    pub board: &'static str,
    pub cell: &'static str,
}

impl Colors {
    pub fn new() -> (c: Colors)
        ensures
            c.background_dark@ == "#2B2A4C"@,
            c.background_light@ == "#2B2A4C"@,
            c.text_dark@ == "#09080f"@,
            c.text_light@ == "#EA906C"@,
            c.button@ == "#BCBCCC"@,
            c.button_hover@ == "#F0F0F0"@,
            c.board@ == "#EA906C"@,
            c.cell@ == "#BCBCCC"@,
    {
        Colors {
            background_dark: "#2B2A4C",
            background_light: "#2B2A4C",
            text_dark: "#09080f",
            text_light: "#EA906C",
            button: "#BCBCCC",
            button_hover: "#F0F0F0",
            board: "#EA906C",
            cell: "#BCBCCC",
        }
    }
}

/// Marker for a move request that produced no board change.
pub struct InvalidMove;

/// Outcome of one move attempt.
///
/// A committed move carries the spawned tile's identifier, the full post-move
/// tile list, and whether the move reached the win target.
pub enum InputResult {
    Committed(usize, Vec<Tile>, bool),
    Rejected(InvalidMove),
}

/// One of the four discrete movement directions.
#[derive(Clone, Copy)]
pub enum Direction {
    Up,
    Down,
    Left,
    Right,
}

/// The whole game state: board, score, spawn settings and identifier pool.
pub struct Game {
    pub board: Vec<Option<Tile>>,
    pub new_tile_params: NewTileParams,
    pub free_slots: Vec<(usize, usize)>,
    pub score: u64,
    pub id_list: Vec<usize>,
    pub win_target: u32,
}

/// Computes the floor of the base-2 logarithm of `num`.
pub fn log_2(num: u32) -> (log: u32)
    requires
        num >= 1,
    ensures
        log == crate::model::log2_spec(num as int),
{
    proof {
        crate::model::lemma_log2_literals();
        crate::model::lemma_log2_mono(num as int, 0xFFFF_FFFF);
        crate::model::lemma_log2_nonneg(num as int);
    }
    let mut n: u32 = num;
    let mut log: u32 = 0;
    while n > 1
        invariant
            1 <= n <= num,
            crate::model::log2_spec(num as int) <= 31,
            crate::model::log2_spec(n as int) >= 0,
            crate::model::log2_spec(num as int) == log + crate::model::log2_spec(n as int),
        decreases n,
    {
        n = n / 2;
        log = log + 1;
        proof {
            crate::model::lemma_log2_nonneg(n as int);
        }
    }
    log
}

} // verus!
