//! A falling-sand particle simulation engine.
//!
//! A `CellMap` holds a fixed-size grid of cells, each `EMPTY` or `FILLED`.
//! Particles are painted onto the grid with a circular brush and fall under
//! a gravity-plus-lateral-diffusion rule, one discrete tick at a time.
//! Rendering and windowing are left to the caller; the engine only computes
//! grid states and draw records.

pub mod cell_map;
