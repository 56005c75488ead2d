//! A software renderer for a bicubic Bezier patch, in fixed-point arithmetic.
//!
//! The patch is evaluated on a regular grid, rotated, split into triangles and
//! filled scanline by scanline with per-pixel Phong shading. Every number is an
//! integer that counts millionths (see [`fixed::ONE`]), so that every result is
//! stated exactly.
//!
//! The modules, from the numbers up:
//!
//! - [`fixed`], [`vector`]: fixed-point numbers, vectors and matrices;
//! - [`bezier`], [`point`], [`rotations`]: the patch, its points and their rotation;
//! - [`control_file`], [`control_points`]: the control grid and the text it is read from;
//! - [`mesh`], [`triangle`]: the grid of samples and its triangles;
//! - [`sorting`], [`active_edge_table`], [`scan`], [`crossing`]: scanline filling and what
//!   it covers;
//! - [`color`], [`texture_loader`], [`colors_manager`], [`light_source`], [`shader`]: colours,
//!   textures and the lighting;
//! - [`polygon_filler`], [`drawer`], [`triangle_mesh_filler`]: filling the triangles of the
//!   mesh, mapping them to the screen, and the scene from frame to frame.

pub mod fixed;
pub mod vector;
pub mod bezier;
pub mod control_file;
pub mod control_points;
pub mod point;
pub mod rotations;
pub mod triangle;
pub mod mesh;
pub mod color;
pub mod light_source;
pub mod texture_loader;
pub mod colors_manager;
pub mod sorting;
pub mod shader;
pub mod active_edge_table;
pub mod scan;
pub mod polygon_filler;
pub mod crossing;
pub mod drawer;
pub mod triangle_mesh_filler;
