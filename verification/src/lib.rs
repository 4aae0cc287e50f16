//! A disk usage analyzer's core: an arena tree of filesystem entries built
//! from the records of a walk (hard links counted once), subtree totals in
//! either apparent or allocated size, children listed largest first,
//! deletion that keeps the totals right, and the key handling of the
//! interactive navigator.
use vstd::prelude::*;

pub mod sums;
pub mod model;
pub mod mode;
pub mod sort;
pub mod tree;
pub mod scan;
pub mod browse;

pub use browse::{Action, App, Key};
pub use mode::SizeMode;
pub use scan::{FileInfo, Progress, Scan};
pub use tree::{Node, Tree};

verus! {

} // verus!

