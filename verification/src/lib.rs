pub mod board;
pub mod cells;
pub mod data;
pub mod game_model;
pub mod hex_coordinate;
pub mod hive;
pub mod rules;
pub mod ui;
pub mod world_cursor;
