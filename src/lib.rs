//! Rules engine for a tile-placement, stock-trading board game in the style of
//! Acquire: board geometry, dealing, turn resolution and share pricing.
//!
//! A game is an immutable value: `play_turn` and `compute_state` take a game
//! and return a new one, or the reason an action was refused.

pub mod board;
pub mod engine;
pub mod player;
pub mod pricing;
pub mod setup;

pub use board::{
    board_tiles, has_tile_on_slot, hotel_chain_size, initial_slots, place_tile_on_board, Board,
    Slot, Tile, COLS, ROWS, TILES,
};
pub use engine::{
    compute_state, new_actions, play_turn, Action, Game, MergeDecision, TurnError, TurnResult,
};
pub use player::{
    add_share, empty_shares, new_player, player_has_tile, Player, PlayerId, PlayerShares,
    HAND_SIZE, PLAYERS, STARTING_MONEY,
};
pub use pricing::{base_price, price_level, stock_price, Hotel};
pub use setup::{
    choose_tiles, choose_tiles_with, new_game, new_game_with, new_players, new_players_with,
};
