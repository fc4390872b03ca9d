//! The hierarchy of the processes of a system, from their status descriptors
//! to an indented tree.
//!
//! A scan hands over the text of one descriptor for each process directory.
//! [`status`] reads each text into a [`record::ProcessRecord`]: name, pid and
//! parent pid. [`tree`] turns the flat list of records into a
//! [`tree::ProcessTree`] below a root that stands above every process, by
//! way of the two indexes that [`index`] describes. [`render`] writes the
//! tree as text, one line for each process.
//!
//! [`hierarchy`] states what holds of every tree that is built in this way,
//! over the paths of [`paths`]; [`text`] holds what both reading and writing
//! need of characters and decimal numbers.

pub mod hierarchy;
pub mod index;
pub mod paths;
pub mod record;
pub mod render;
pub mod status;
pub mod text;
pub mod tree;
