//! A Minesweeper field engine: mine placement with a safe first move,
//! neighbour numbers, cascading reveal, flagging and the win condition.

pub mod count;
pub mod field;
pub mod laws;
