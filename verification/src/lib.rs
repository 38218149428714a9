//! A perfect-maze generation engine.
//!
//! The engine builds a randomized spanning tree over an N x N grid of rooms,
//! carving passages one wall at a time.  The construction can be observed
//! step by step (one carve-event per step) or drained to completion and
//! projected as a boolean snapshot of the final grid.

mod builder;
mod exercise;
mod laws;
mod maze;
mod render;
mod stream_works;
mod ws_works;

pub use exercise::GlobalHeaders;
pub use exercise::HeaderError;
pub use exercise::HitCount;
pub use exercise::NormalResponse;
pub use exercise::PostForm;
pub use exercise::PostJson;
pub use exercise::check_token;
pub use exercise::normal_request;
pub use exercise::count;
pub use exercise::internal_server_error;
pub use exercise::post;
pub use exercise::post_json;
pub use exercise::post_with_body;
pub use exercise::token_error;
pub use builder::BuilderModel;
pub use builder::is_path;
pub use builder::open_between;
pub use builder::open_interior_count;
pub use builder::reachable;
pub use builder::lemma_step_preserves_wf;
pub use laws::abs_mod;
pub use laws::lemma_exhausted_all_linked;
pub use laws::lemma_reach_sym;
pub use laws::lemma_reach_trans;
pub use laws::lemma_snapshot_idempotent;
pub use laws::lemma_spanning;
pub use laws::lemma_stream_deterministic;
pub use laws::lemma_wall_count;
pub use laws::run_events;
pub use builder::MazeBuilder;
pub use builder::after_insert;
pub use builder::after_insert_room;
pub use builder::step_model;
pub use builder::swap_removed;
pub use maze::Direction;
pub use maze::Maze;
pub use maze::Room;
pub use maze::Wall;
pub use maze::WallStatus;
pub use render::MazeSnapshot;
pub use render::bool_grid;
pub use render::bool_grid_view;
pub use render::dec_seq;
pub use render::json_of_wall;
pub use stream_works::build_maze_full;
pub use stream_works::hello;
pub use ws_works::digits_val;
pub use ws_works::maze_trigger_value;
pub use ws_works::parse_maze_trigger;
