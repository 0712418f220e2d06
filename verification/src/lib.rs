//! A terminal sort visualizer: a partition-exchange sort instrumented to
//! emit one frame per recursive call, a generator for random datasets sized
//! to the terminal, and the session logic that dispatches keyboard events.

pub mod data;
pub mod session;
pub mod sink;
pub mod sort;
