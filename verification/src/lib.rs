//! Rules engine of a sliding-tile merge puzzle on a 4x4 board.
//!
//! A board is an arena of tiles, each with a rank and a cell. A move in one of
//! four directions is resolved line by line into single steps and merges, the
//! steps and merges are applied to the board and the score, a new tile is
//! spawned on a free cell, and the session either waits for the next input or
//! ends when the board is full and nothing can merge.
//!
//! The executable parts:
//! - [`position`], [`tile`], [`quarter_turn`], [`grid_array`], [`events`],
//!   [`score`], [`game_state`], [`error`]: the values of the game;
//! - [`board`]: the tiles of a game and the cells they stand on;
//! - [`calculate`]: the resolver of a move into steps and merges;
//! - [`movement`]: the steps and merges applied to board and score;
//! - [`spawn`]: the new tile, drawn from a generator of pseudo-random numbers;
//! - [`game_over`]: when nothing moves any more;
//! - [`session`]: one game, and the stages of its turn.
//!
//! What is proved of them beyond their own contracts:
//! - [`grid_array`]: a turn and its inverse give the board back;
//! - [`resolves`]: every move resolves;
//! - [`merge_once`]: no tile is part of two merges of one move;
//! - [`settled`]: a move in whose direction nothing can move or merge changes nothing;
//! - [`conservation`]: merges take tiles off the board and nothing brings one onto it;
//! - [`scoring`]: the score grows by the numbers on the merged tiles;
//! - [`seated`], [`slid`], [`played`]: a resolved move can always be played,
//!   and after it every line holds its tiles pushed together at its front.

pub mod board;
pub mod calculate;
pub mod conservation;
pub mod constants;
pub mod error;
pub mod events;
pub mod game_over;
pub mod game_state;
pub mod grid_array;
pub mod merge_once;
pub mod movement;
pub mod played;
pub mod position;
pub mod quarter_turn;
pub mod resolves;
pub mod score;
pub mod scoring;
pub mod seated;
pub mod session;
pub mod settled;
pub mod slid;
pub mod spawn;
pub mod tile;
