pub mod codec;
pub mod commands;
pub mod geometry;
pub mod identity;
pub mod layout;
pub mod orchestrate;
pub mod reconcile;
pub mod state;

pub use geometry::Rect;
pub use geometry::COORD_LIMIT;
pub use layout::Layout;
pub use layout::tile_vertical;
pub use layout::tile_horizontal;
pub use layout::tile_monocle;
pub use layout::tile_windows;
pub use commands::Command;
pub use commands::cycle_layout;
pub use commands::parse_command;
pub use commands::promote;
pub use identity::Signature;
pub use state::SessionState;
pub use reconcile::reconcile;
pub use codec::render_state;
pub use codec::parse_state;
pub use codec::load_state_str;
pub use orchestrate::Outcome;
pub use orchestrate::Placement;
pub use orchestrate::run_invocation;
