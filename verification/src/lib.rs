//! A one-dimensional cellular automaton whose history is drawn as a grid of
//! coloured cells, together with the sample layout of a short stereo clip.
//!
//! The modules hold the verified logic: `ca` steps the automaton and lays out
//! the vertex and colour buffers that a renderer draws, `rule_table` builds
//! the table of rules from random draws, and `audio` interleaves two stereo
//! channels into one stream.

pub mod audio;
pub mod ca;
pub mod rule_table;
