pub mod game_state;
pub mod hands;
pub mod piece;
pub mod relocation;
pub mod validation;
pub mod win_detector;
