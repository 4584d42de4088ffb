//! An application launcher's core: the index of programs on the search path,
//! the candidate filter and cursor, the launch state machine, and the plan of
//! the process that a launch starts.
pub mod index;
pub mod launch;
pub mod order;
pub mod session;
pub mod text;
