//! Advisor core for a mahjong hand: shanten distance and discard
//! recommendations over a 34-category tile count vector.

pub mod engine;
pub mod hand;
pub mod shanten;

pub use engine::analyze;
pub use engine::AnalysisResult;
pub use engine::Recommendation;
pub use hand::Hand;
pub use hand::ParseError;
pub use hand::TileType;
pub use shanten::calculate_shanten;
