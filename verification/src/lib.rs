//! Tools for a two-dimensional graphical programming language whose programs
//! are grids of coloured codels: a colour model, a grid with region
//! extraction, a stack machine, and an assembler that lays a linear program
//! out as a grid.

pub mod args;
pub mod assembler;
pub mod bigint;
pub mod color;
pub mod grid;
pub mod pixels;
pub mod pointer;
pub mod vm;
pub mod walk;
