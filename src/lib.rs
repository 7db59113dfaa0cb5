//! Bookkeeping core of a small real-time rendering engine: sub-allocation of a
//! shared vertex buffer, a dense bindless texture array, the registry of render
//! objects that own those allocations, and the world that tracks entities, tags
//! and the per-frame notifications of behavior modules.
pub mod entity_renderer;
pub mod loadable;
pub mod meshmanager;
pub mod packed;
pub mod resources;
pub mod system;
pub mod texmanager;
pub mod texture;
pub mod world;
