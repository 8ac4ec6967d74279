//! proply_rs: the verified core of a propeller design tool.
//!
//! - [`cli`], [`design`]: the command line, the run options it overrides,
//!   and the run-level decisions of a design.
//! - [`units`]: unit-suffixed quantities of the design file.
//! - [`cache`], [`simulator`]: the polar cache with its journal and
//!   compactions, and the bookkeeping of simulated polar buckets.
//! - [`mesh`], [`ply`], [`readback`]: the propeller's triangle mesh, its
//!   PLY document, the reader of that document, and the proof that a
//!   written mesh reads back.
//! - [`render`]: the integer side of the headless renderer.
//! - [`design_log`], [`step_out`]: the design trace sink and the STEP
//!   writer's error framing.
//! - [`text`]: characters and number grammars shared by the readers.
pub mod cache;
pub mod text;
pub mod units;
pub mod design_log;
pub mod simulator;
pub mod render;
pub mod ply;
pub mod cli;
pub mod design;
pub mod step_out;
pub mod mesh;
pub mod readback;
