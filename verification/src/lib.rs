//! Build-task runner core: a depth-first directory walker, a filtered tree
//! copier, a bounded worker pool for per-file transforms, a subprocess
//! line-buffering layer, and a path-rewriting rule system, all specified and
//! verified over an explicit model of paths and directory trees.

pub mod copier;
pub mod dist;
pub mod fstree;
pub mod pathname;
pub mod rename;
pub mod runner;
pub mod swarm;
pub mod walker;
