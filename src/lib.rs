//! Text storage core of an editor: append-only buffers with a line-start
//! index, a free-list arena, and a piece table whose tree maps line and
//! character coordinates to the piece that holds them.

pub mod arena;
pub mod buffer;
pub mod piece_table;
pub mod view;
