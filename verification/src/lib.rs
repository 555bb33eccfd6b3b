//! The logic behind Desdec's reading windows: the programmer's calculator,
//! the conservative C reading of an instruction, and the rules the listing,
//! the graph and the dump are laid out by.

pub mod about;
pub mod calculator;
pub mod characters;
pub mod classes;
pub mod compare;
pub mod decompile;
pub mod disassembly;
pub mod dump;
pub mod expert;
pub mod expression;
pub mod functions;
pub mod graph;
pub mod library_file;
pub mod numerals;
pub mod sizes;
pub mod text;
