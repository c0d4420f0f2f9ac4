//! An in-memory mirror of a file-system subtree for staged clean-up work:
//! a parallel-friendly enumeration driver, an arena tree with aggregated
//! sizes, and an action journal that applies deletes, moves, and creations
//! to the mirror first and hands the real file-system work out at commit
//! time. Every operation carries a contract, and the structural laws of
//! the tree are proved: sizes of directories match their children after a
//! build, the parent relation never forms a cycle, and a cleanly recorded
//! path navigates back to its node.

pub mod ai;
pub mod command;
pub mod enumerate;
pub mod kernel;
pub mod system;
pub mod text;
