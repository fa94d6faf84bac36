//! Verified core of a voxel engine.
pub mod arith;
pub mod cf_narrow;
pub mod color;
pub mod column_walk;
pub mod dda;
pub mod dda_sprite;
pub mod drawtile;
pub mod edit;
pub mod engine;
pub mod gline;
pub mod grid_view;
pub mod grouscan;
pub mod kfa_draw;
pub mod kv6;
pub mod material;
pub mod meltsphere;
pub mod opticast;
pub mod opticast_prelude;
pub mod powers;
pub mod ptfaces16;
pub mod rasterizer;
pub mod sky;
pub mod slab;
pub mod voxel_clip;
pub mod vxl;
pub mod world_query;
