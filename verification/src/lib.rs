//! Compiles a regular expression into a FAT32 volume image whose directory
//! graph is the automaton that recognises the expression.
//!
//! Every state of the automaton becomes a directory. For every letter of the
//! alphabet the directory holds a subdirectory entry whose first cluster is the
//! directory of the successor state, so that walking a path spells a word and
//! ends in the directory of the state which that word reaches. Directories of
//! accepting states hold an empty file called `MATCH`.
//!
//! - [`automaton`]: the automaton, and what is assumed of it;
//! - [`alphabet`]: the letters that label transitions;
//! - [`enumerate`]: the states that the alphabet reaches, breadth first;
//! - [`layout`]: the clusters of the directory of each state;
//! - [`fat32`]: the reserved sectors, the allocation table, directory entries;
//! - [`volume`]: the directories and the whole volume;
//! - [`geometry`]: where the parts of the volume lie;
//! - [`reader`]: what a reader of FAT32 finds in the volume.

pub mod alphabet;
pub mod automaton;
pub mod enumerate;
pub mod error;
pub mod fat32;
pub mod geometry;
pub mod layout;
pub mod reader;
pub mod volume;
