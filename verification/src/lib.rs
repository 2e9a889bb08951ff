//! Periodic command viewer core: similarity scoring, numeric extraction,
//! line and word alignment, colored rendering and the supervisor's decisions.

pub mod align;
pub mod args;
pub mod bignat;
pub mod error;
pub mod numeric;
pub mod paint;
pub mod render;
pub mod roots;
pub mod score;
pub mod similarity;
pub mod text;
pub mod watch;
