//! Tetris game engine: a bit-packed playing field, piece movement with the
//! Super Rotation System, a game state machine and a move-searching bot.

pub mod pt;
pub use crate::pt::Point;

pub mod rot;
pub use crate::rot::Rot;

pub mod piece;
pub use crate::piece::{Piece, Sprite};

pub mod player;
pub use crate::player::Player;

pub mod well;
pub use crate::well::{Well, Line, ColRange, MAX_WIDTH, MAX_HEIGHT, SIZE_OF_WIDTH};

pub mod srs;
pub use crate::srs::{SrsData, srs_cw, srs_ccw, srs_data_cw, srs_data_ccw};

pub mod state;
pub use crate::state::{State, test_player, trace_down};

pub mod bot;
pub use crate::bot::{Weights, Features, Play, PlayI, LOST};

pub mod tile;
pub use crate::tile::{Tile, TileTy};

pub mod input;
pub use crate::input::{Clock, Input, InputState};

pub mod text;
pub use crate::text::ParseWellError;

pub mod bag;
pub use crate::bag::{Bag, OfficialBag, BestBag, WorstBag};

pub mod rules;
pub use crate::rules::{Rules, TheRules};

pub mod scene;
pub use crate::scene::{Scene, CELLS};
