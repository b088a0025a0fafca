//! Plain data structures shared by the rest of the kernel.
pub mod path;
pub mod registers;
pub mod screen;
pub mod queue;
pub mod random;
