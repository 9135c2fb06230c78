[package]
name = "octree_dual_contour"
version = "0.1.0"
edition = "2021"
publish = false

[dependencies]
glam = "=0.24.2"
ilattice = "=0.4.0"
