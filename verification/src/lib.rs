//! Control-flow graphs of C programs.
//!
//! [`parser::parse_c_code`] parses a C source text and returns the nodes and
//! edges of its flowchart. [`run`] decides how a source text is compiled and
//! run.
//!
//! A syntax tree is a [`syntax::SyntaxNode`], whose view is a
//! [`syntax::Syntax`]. [`flow`] says what a statement adds to a flowchart,
//! [`flowchart`] what a program does; [`draw`] draws it, where [`drawable`]
//! holds. The laws stand in [`statements`], [`loops`] and [`programs`], which say
//! what statements, loops and programs are drawn as, in [`composition`],
//! [`entry`], [`numbering`], [`closure`], [`kinds`], [`usage`] and [`progress`],
//! and beside what they are about in [`text`], [`graph`], [`syntax`] and [`run`].
pub mod closure;
pub mod composition;
pub mod draw;
pub mod drawable;
pub mod entry;
pub mod flow;
pub mod flowchart;
pub mod graph;
pub mod kinds;
pub mod loops;
pub mod numbering;
pub mod outline;
pub mod parser;
pub mod programs;
pub mod progress;
pub mod run;
pub mod statements;
pub mod syntax;
pub mod text;
pub mod usage;
